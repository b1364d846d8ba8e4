use howfastly_map::cells::{levels, parse, paths, place, polyline, Cell, Level, Paths, Shapes, Span, LAYERS, PLACES};

fn ten() -> Level {
    levels()[0]
}

fn chars(s: &str) -> Vec<char> {
    s.chars().collect()
}

#[test]
fn levels_by_width() {
    let all = levels();
    assert_eq!(all[0].name, "10m");
    assert_eq!(all[1].name, "50m");
    assert!(all.windows(2).all(|w| w[0].max_w < w[1].max_w));
    assert_eq!(ten().columns(), 36);
    assert_eq!(ten().rows(), 18);
    assert_eq!(all[1].columns(), 12);
    assert_eq!(all[1].rows(), 6);
}

#[test]
fn cells_and_files() {
    assert_eq!(ten().cell(-8770, 4190), (9, 13));
    assert_eq!(ten().file((9, 13)), "10m/-90_40.txt");
    assert_eq!(ten().url((0, 0)), "/cells/10m/-180_-90.txt");
    assert_eq!(ten().cell(18000, 9000), (0, 17));
    assert_eq!(ten().cell(-18000, -9000), (0, 0));
    assert_eq!(ten().cell(18500, 0), (0, 9));
    let fifty = levels()[1];
    assert_eq!(fifty.file(fifty.cell(14530, -3780)), "50m/120_-60.txt");
    assert_eq!(ten().corner((35, 17)), (170, 80));
}

#[test]
fn keys_under_frames() {
    // a frame over the antimeridian keeps both sides in one order
    let span = Span { c0: 35, c1: 36, r0: 12, r1: 12 };
    assert_eq!(ten().keys(&span), vec![(35, 12), (0, 12)]);
    // the whole world names every column once
    let span = Span { c0: -6, c1: 18, r0: 0, r1: 5 };
    let keys = levels()[1].keys(&span);
    assert_eq!(keys.len(), 12 * 6);
}

#[test]
fn keys_name_each_cell_once_and_cover_the_span() {
    let span = Span { c0: -40, c1: 3, r0: 2, r1: 4 };
    let keys = ten().keys(&span);
    let mut sorted = keys.clone();
    sorted.sort();
    sorted.dedup();
    assert_eq!(sorted.len(), keys.len());
    assert_eq!(keys.len(), 36 * 3);
    for row in 2..=4 {
        for col in -40..=3i64 {
            assert!(keys.contains(&(col.rem_euclid(36), row)));
        }
    }
    // rows west to east within south to north
    let span = Span { c0: 9, c1: 10, r0: 12, r1: 13 };
    assert_eq!(ten().keys(&span), vec![(9, 12), (10, 12), (9, 13), (10, 13)]);
    // an empty span has no cells
    assert!(ten().keys(&Span { c0: 5, c1: 4, r0: 0, r1: 0 }).is_empty());
    assert!(ten().keys(&Span { c0: 0, c1: 4, r0: 3, r1: 2 }).is_empty());
}

#[test]
fn wrap_folds_rows_and_wraps_columns() {
    assert_eq!(ten().wrap(-1, -3), (35, 0));
    assert_eq!(ten().wrap(37, 40), (1, 17));
    assert_eq!(ten().wrap(5, 6), (5, 6));
}

const CELL: &str = "=land\n-9000,4000 -8000,4000 -8000,5000\n=lakes\n-8764,4186 -8700,4200 -8700,4300\n=rivers\n-8500,4100 -8600,4200\n=towns\n1 2 3\n=places\n3\t-8764\t4186\tChicago\n6.1\t-8600\t4300\tWaukegan\n";

#[test]
fn parse_exact() {
    let cell = parse(CELL).unwrap();
    assert_eq!(cell.land, vec![vec![(-9000, 4000), (-8000, 4000), (-8000, 5000)]]);
    assert_eq!(cell.lakes[0][0], (-8764, 4186));
    assert_eq!(cell.rivers.len(), 1);
    assert!(cell.urban.is_empty() && cell.admin1.is_empty() && cell.borders.is_empty());
    assert_eq!(cell.places.len(), 2);
    assert_eq!(cell.places[0].name, "Chicago");
    assert_eq!(cell.places[1].zoom, "6.1");
    assert_eq!((cell.places[1].lon, cell.places[1].lat), (-8600, 4300));
    assert_eq!(parse(""), Some(Cell::new()));
    assert_eq!(parse("\n\n"), Some(Cell::new()));
    // a line before any section, a pair without a comma and a decimal all refuse
    assert_eq!(parse("-9000,4000\n"), None);
    assert_eq!(parse("=land\n-9000 4000\n"), None);
    assert_eq!(parse("=land\n-90.0,40.0\n"), None);
    assert_eq!(parse("=places\n3\t-8764\t4186\n"), None);
    assert_eq!(parse("=places\nx\t-8764\t4186\tChicago\n"), None);
}

#[test]
fn parse_windows_endings_and_unknown_sections() {
    let cell = parse("=rivers\r\n1,2 3,4\r\n=roads\r\nnot a line\r\n=borders\r\n5,6\r\n").unwrap();
    assert_eq!(cell.rivers, vec![vec![(1, 2), (3, 4)]]);
    assert_eq!(cell.borders, vec![vec![(5, 6)]]);
    // a section may open twice and goes on where it stopped
    let cell = parse("=land\n1,1\n=lakes\n2,2\n=land\n3,3\n").unwrap();
    assert_eq!(cell.land, vec![vec![(1, 1)], vec![(3, 3)]]);
    assert_eq!(cell.lakes, vec![vec![(2, 2)]]);
    // an empty section name is a section too, one nobody reads
    assert_eq!(parse("=\nanything\n"), Some(Cell::new()));
}

#[test]
fn polyline_and_place_lines() {
    assert_eq!(polyline(&chars("  -1,+2\t3,-4 ")), Some(vec![(-1, 2), (3, -4)]));
    assert_eq!(polyline(&chars("")), Some(vec![]));
    assert_eq!(polyline(&chars("1,2,3")), None);
    assert_eq!(polyline(&chars(",2")), None);
    assert_eq!(polyline(&chars("1,")), None);
    assert_eq!(polyline(&chars("9223372036854775808,0")), None);
    let p = place(&chars("1e1\t-1\t2\tSaint\tDenis")).unwrap();
    assert_eq!(p.zoom, "1e1");
    assert_eq!((p.lon, p.lat), (-1, 2));
    assert_eq!(p.name, "Saint\tDenis");
    assert!(place(&chars(".5\t0\t0\t")).is_some());
    assert!(place(&chars("-inf\t0\t0\tx")).is_some());
    assert!(place(&chars(".\t0\t0\tx")).is_none());
    assert!(place(&chars("3\t0.5\t0\tx")).is_none());
    assert!(place(&chars("3\t0\t\tx")).is_none());
}

#[test]
fn paths_and_places() {
    let cell = Shapes {
        land: vec!["M250.000,10.000L260.000,10.000L260.000,20.000".to_string()],
        urban: vec![],
        lakes: vec!["M251.000,11.000L252.000,12.000".to_string(), String::new()],
        rivers: vec!["M253.000,13.000L254.000,14.000".to_string()],
        admin1: vec![],
        borders: vec!["M1,1L2,2".to_string(), "M3,3L4,4".to_string()],
    };
    let p = paths(&[cell.clone(), cell.clone()]);
    assert!(p.land.starts_with("M250.000,"));
    assert!(p.land.ends_with('Z'));
    assert_eq!(p.land.matches('Z').count(), 2);
    assert_eq!(p.land.matches('M').count(), 2);
    // an empty shape of a ring layer draws nothing, not even its close
    assert_eq!(p.lakes.matches('Z').count(), 2);
    assert!(!p.rivers.contains('Z'));
    assert!(p.urban.is_empty());
    assert_eq!(p.borders, "M1,1L2,2M3,3L4,4M1,1L2,2M3,3L4,4");
    let none = Paths {
        land: String::new(),
        urban: String::new(),
        lakes: String::new(),
        rivers: String::new(),
        admin1: String::new(),
        borders: String::new(),
    };
    assert_eq!(paths(&[]), none);
}

#[test]
fn layers_named() {
    let mut cell = Cell::new();
    for name in LAYERS {
        assert!(cell.layer_mut(name).is_some());
    }
    assert!(cell.layer_mut(PLACES).is_none());
    assert!(cell.layer_mut("roads").is_none());
}

#[test]
fn layer_mut_reaches_its_layer() {
    let mut cell = Cell::new();
    cell.layer_mut("admin1").unwrap().push(vec![(1, 2)]);
    assert_eq!(cell.admin1, vec![vec![(1, 2)]]);
    assert!(cell.land.is_empty() && cell.borders.is_empty());
}

// a section no reader knows reads as if it were not there, up to the next section
#[test]
fn unknown_section_skipped() {
    let with = parse("=land\n1,1\n=roads\n1 2 3\n=\n\n=lakes\n2,2\n=towns\nx\ty\n").unwrap();
    let without = parse("=land\n1,1\n=lakes\n2,2\n").unwrap();
    assert_eq!(with, without);
}

// the cell of every point under a frame is among its keys
#[test]
fn keys_hold_the_cells_of_points() {
    for level in levels() {
        let d = 100 * level.deg as i64;
        let span = Span { c0: -3, c1: 40, r0: 1, r1: level.rows() - 1 };
        let keys = level.keys(&span);
        let mut lon = -3 * d - 18000;
        while lon < 41 * d - 18000 {
            for lat in [-8900, -100, 0, 4186, 8999, 9000, 12000] {
                let col = (lon + 18000).div_euclid(d);
                let row = level.cell(lon, lat).1;
                if span.c0 <= col && col <= span.c1 && span.r0 <= row && row <= span.r1 {
                    assert!(keys.contains(&level.cell(lon, lat)), "{lon} {lat}");
                }
            }
            lon += 337;
        }
    }
}
