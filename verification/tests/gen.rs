use howfastly_map::cells::{levels, parse, place, polyline, Level, LAYERS};
use howfastly_map::gen::{
    all, base_lines, base_places, cell, cell_file, dedup, file_text, level_files, lines,
    place_line, plans, polylines, ring_cells, river, state, towns, Coordinates, Cut, Feature,
    GenError, Geometry, Keep, PlaceFeature, Source, Town,
};
use howfastly_map::text::split_lines;
use howfastly_map::gen;

fn ten() -> Level {
    levels()[0]
}

fn chars(s: &str) -> Vec<char> {
    s.chars().collect()
}

fn source(keep: Keep) -> Source {
    Source { file: "x", ring: false, keep }
}

fn num(v: i64) -> Coordinates {
    Coordinates::Number(v)
}

fn list(items: Vec<Coordinates>) -> Coordinates {
    Coordinates::List(items)
}

// a run of points as geojson writes it, each a list of two numbers
fn points(ps: &[(i64, i64)]) -> Coordinates {
    list(ps.iter().map(|&(x, y)| list(vec![num(x), num(y)])).collect())
}

fn feature(featurecla: Option<&str>, kind: &str, coordinates: Coordinates) -> Feature {
    Feature {
        featurecla: featurecla.map(|s| s.to_string()),
        featurecla_upper: None,
        geometry: Some(Geometry { kind: Some(kind.to_string()), coordinates }),
    }
}

fn bare(featurecla_upper: Option<&str>) -> Feature {
    Feature {
        featurecla: None,
        featurecla_upper: featurecla_upper.map(|s| s.to_string()),
        geometry: None,
    }
}

fn town(zoom: i64, lon: i64, lat: i64, name: &str) -> Town {
    Town { zoom, lon, lat, name: name.to_string() }
}

fn place_feature(zoom: Option<i64>, name: Option<&str>, coordinates: Option<Vec<Option<i64>>>) -> PlaceFeature {
    PlaceFeature { zoom, name: name.map(|s| s.to_string()), coordinates }
}

#[test]
fn rounding_and_text() {
    assert_eq!(gen::line(&[(-8764, 4186), (-8700, 4200)]), "-8764,4186 -8700,4200");
    assert_eq!(dedup(vec![(1, 1), (1, 1), (2, 2), (1, 1)]), vec![(1, 1), (2, 2), (1, 1)]);
}

// every layer name a plan writes is one the client reads
#[test]
fn plan_layers_are_known() {
    let plans = plans().unwrap();
    assert_eq!(plans.len(), levels().len());
    for plan in &plans {
        for (name, _) in &plan.layers {
            assert!(LAYERS.contains(name), "{name}");
        }
    }
}

#[test]
fn plans_exact() {
    let plans = plans().unwrap();
    assert_eq!((plans[0].level.name, plans[0].steps), ("10m", 100));
    assert_eq!((plans[1].level.name, plans[1].steps), ("50m", 20));
    let names: Vec<&str> = plans[0].layers.iter().map(|l| l.0).collect();
    assert_eq!(names, vec!["land", "urban", "lakes", "rivers", "admin1", "borders"]);
    let names: Vec<&str> = plans[1].layers.iter().map(|l| l.0).collect();
    assert_eq!(names, vec!["land", "lakes", "admin1", "borders"]);
    assert_eq!(
        plans[0].layers[3].1,
        Source { file: "ne_10m_rivers_lake_centerlines", ring: false, keep: Keep::River }
    );
    assert_eq!(
        plans[1].layers[2].1,
        Source { file: "ne_50m_admin_1_states_provinces_lines", ring: false, keep: Keep::State }
    );
    assert!(plans[1].layers[0].1.ring);
}

#[test]
fn rings_and_lines_land_in_cells() {
    // a ring over the 80th meridian west and the 40th parallel touches four cells
    let ring = [(-8500, 3500), (-7500, 3500), (-7500, 4500), (-8500, 4500)];
    assert_eq!(ring_cells(&ten(), &ring), vec![(9, 12), (9, 13), (10, 12), (10, 13)]);
    let runs = lines(&ten(), &[(-8500, 4100), (-8100, 4100), (-7900, 4100), (-7800, 4200)]);
    let texts: Vec<(_, String)> = runs.iter().map(|(k, r)| (*k, gen::line(r))).collect();
    assert_eq!(
        texts,
        vec![
            ((9, 13), "-8500,4100 -8100,4100 -7900,4100".to_string()),
            ((10, 13), "-8100,4100 -7900,4100 -7800,4200".to_string()),
        ]
    );
    assert!(lines(&ten(), &[(-8500, 4100)]).is_empty());
    assert_eq!(cell(&ten(), (18000, 9000)), (35, 17));
    assert_eq!(cell(&ten(), (-18000, -9000)), (0, 0));
}

#[test]
fn lines_split_at_every_crossing() {
    // a line through three cells, back into the first
    let runs = lines(&ten(), &[(100, 100), (1100, 100), (2100, 100), (500, 100)]);
    let keys: Vec<_> = runs.iter().map(|r| r.0).collect();
    assert_eq!(keys, vec![(18, 9), (19, 9), (20, 9), (18, 9)]);
    assert_eq!(runs[1].1, vec![(100, 100), (1100, 100), (2100, 100)]);
    assert_eq!(runs[3].1, vec![(2100, 100), (500, 100)]);
    // a line within one cell stays whole
    let runs = lines(&ten(), &[(100, 100), (200, 200), (300, 300)]);
    assert_eq!(runs, vec![((18, 9), vec![(100, 100), (200, 200), (300, 300)])]);
    // a ring east of the antimeridian folds into the last column
    assert_eq!(ring_cells(&ten(), &[(17500, 0), (18100, 100)]), vec![(35, 9)]);
}

#[test]
fn geojson_shapes() {
    let features = vec![
        feature(Some("River"), "LineString", points(&[(10, 20), (10, 20), (30, 40)])),
        feature(Some("Lake Centerline"), "LineString", points(&[(0, 0), (10, 10)])),
        feature(None, "MultiLineString", list(vec![points(&[(0, 0), (10, 10)]), points(&[(20, 20), (30, 30)])])),
        feature(None, "MultiPolygon", list(vec![list(vec![points(&[(0, 0), (10, 0), (10, 10), (0, 0)])])])),
    ];
    let rivers = polylines(&features, &source(Keep::River), 10).unwrap();
    assert_eq!(rivers, vec![vec![(100, 200), (300, 400)]]);
    let everything = polylines(&features, &source(Keep::All), 10).unwrap();
    assert_eq!(everything.len(), 5);
    assert_eq!(everything[4].len(), 4);
    // a layer that keep empties, an unknown geometry and a bad point stop the run
    assert_eq!(polylines(&features, &source(Keep::State), 10), Err(GenError::Empty("x")));
    let odd = vec![feature(None, "Point", list(vec![num(0), num(0)]))];
    assert_eq!(
        polylines(&odd, &source(Keep::All), 10),
        Err(GenError::Geometry("x", Some("Point".to_string())))
    );
    let bad = vec![feature(None, "LineString", list(vec![list(vec![num(0)]), list(vec![num(1), num(1)])]))];
    assert_eq!(polylines(&bad, &source(Keep::All), 10), Err(GenError::Point("x")));
    // a feature without geometry is skipped, natural earth has a few
    let empty = vec![bare(None), feature(None, "LineString", points(&[(0, 0), (10, 10)]))];
    assert_eq!(polylines(&empty, &source(Keep::All), 10).unwrap().len(), 1);
    assert!(state(&bare(Some("Admin-1 boundary"))));
    assert!(!state(&bare(Some("Admin-1 statistical meta bounds"))));
    let places = vec![
        place_feature(Some(61), Some("Grenoble"), Some(vec![Some(572), Some(4518)])),
        place_feature(Some(17), Some("Paris"), Some(vec![Some(235), Some(4886)])),
    ];
    let t = towns(&places).unwrap();
    assert_eq!(t[0].name, "Paris");
    assert_eq!((t[1].lon, t[1].lat, t[1].zoom), (572, 4518, 61));
    assert!(towns(&vec![place_feature(None, Some("x"), Some(vec![Some(100), Some(200)]))]).is_err());
}

#[test]
fn geometry_kinds_and_grids() {
    // a polygon gives each ring, a multipolygon each ring of each polygon
    let features = vec![
        feature(None, "Polygon", list(vec![points(&[(0, 0), (1, 0), (1, 1)]), points(&[(2, 2), (3, 2), (3, 3)])])),
        feature(None, "MultiPolygon", list(vec![
            list(vec![points(&[(5, 5), (6, 5), (6, 6)])]),
            list(vec![points(&[(7, 7), (8, 7), (8, 8)]), points(&[(9, 9)])]),
        ])),
    ];
    let got = polylines(&features, &source(Keep::All), 100).unwrap();
    assert_eq!(got.len(), 5);
    assert_eq!(got[0], vec![(0, 0), (1, 0), (1, 1)]);
    assert_eq!(got[4], vec![(9, 9)]);
    // on a grid of twenty steps a step is five hundredths
    let got = polylines(&features, &source(Keep::All), 20).unwrap();
    assert_eq!(got[1], vec![(10, 10), (15, 10), (15, 15)]);
    // a point of three numbers keeps the first two
    let three = vec![feature(None, "LineString", list(vec![list(vec![num(1), num(2), num(3)])]))];
    assert_eq!(polylines(&three, &source(Keep::All), 100).unwrap(), vec![vec![(1, 2)]]);
    // a geometry whose type is not a string is unknown
    let untyped = vec![Feature {
        featurecla: None,
        featurecla_upper: None,
        geometry: Some(Geometry { kind: None, coordinates: points(&[(0, 0)]) }),
    }];
    assert_eq!(polylines(&untyped, &source(Keep::All), 100), Err(GenError::Geometry("x", None)));
    // a point that is not a number stops the run
    let other = vec![feature(None, "LineString", list(vec![list(vec![num(1), Coordinates::Other])]))];
    assert_eq!(polylines(&other, &source(Keep::All), 100), Err(GenError::Point("x")));
    // nothing at all yields nothing
    assert_eq!(polylines(&vec![], &source(Keep::All), 100), Err(GenError::Empty("x")));
    assert!(all(&bare(None)));
    assert!(river(&feature(Some("River"), "LineString", points(&[]))));
    assert!(!river(&feature(Some("river"), "LineString", points(&[]))));
}

#[test]
fn towns_by_prominence_in_file_order() {
    let places = vec![
        place_feature(Some(30), Some("c"), Some(vec![Some(1), Some(2)])),
        place_feature(Some(10), Some("a"), Some(vec![Some(3), Some(4), Some(5)])),
        place_feature(Some(30), Some("d"), Some(vec![Some(5), Some(6)])),
        place_feature(Some(-5), Some("z"), Some(vec![Some(7), Some(8)])),
        place_feature(Some(10), Some("b"), Some(vec![Some(9), Some(10)])),
    ];
    let t = towns(&places).unwrap();
    let names: Vec<&str> = t.iter().map(|t| t.name.as_str()).collect();
    assert_eq!(names, vec!["z", "a", "b", "c", "d"]);
    assert_eq!(towns(&vec![]).unwrap(), vec![]);
    assert_eq!(
        towns(&vec![place_feature(Some(1), None, Some(vec![Some(1), Some(2)]))]),
        Err(GenError::Place)
    );
    assert_eq!(towns(&vec![place_feature(Some(1), Some("x"), None)]), Err(GenError::Place));
    assert_eq!(towns(&vec![place_feature(Some(1), Some("x"), Some(vec![Some(1)]))]), Err(GenError::Place));
    assert_eq!(
        towns(&vec![place_feature(Some(1), Some("x"), Some(vec![Some(1), None]))]),
        Err(GenError::PlaceNumbers)
    );
}

#[test]
fn text_of_files_and_towns() {
    assert_eq!(file_text(&[]), "");
    assert_eq!(file_text(&["a".to_string(), "".to_string(), "b".to_string()]), "a\n\nb\n");
    assert_eq!(place_line(&town(61, 572, -4518, "Grenoble")), "6.1\t572\t-4518\tGrenoble");
    assert_eq!(place_line(&town(-5, 0, 0, "x")), "-0.5\t0\t0\tx");
    assert_eq!(gen::line(&[]), "");
    assert_eq!(gen::line(&[(0, -1)]), "0,-1");
}

#[test]
fn base_files() {
    let got = base_lines(&[vec![(-8000, 4010), (100, 0), (-10, 20)], vec![(1, 1), (2, 2)]]);
    assert_eq!(got, vec!["-80.0,40.1 1.0,0.0 -0.1,0.2".to_string()]);
    let towns = [town(17, 235, 4886, "Paris"), town(61, 572, 4518, "Grenoble"), town(50, -5, 7, "Edge")];
    assert_eq!(
        base_places(&towns, 50),
        vec!["1.7\t2.35\t48.86\tParis".to_string(), "5.0\t-0.05\t0.07\tEdge".to_string()]
    );
    assert!(base_places(&towns, 0).is_empty());
}

// what a line writes, a polyline reads back
#[test]
fn line_round_trip() {
    let ps = vec![(-18000, -9000), (0, 0), (i64::MAX, i64::MIN), (7, -7)];
    assert_eq!(polyline(&chars(&gen::line(&ps))), Some(ps));
}

// what place_line writes of a town, place reads back
#[test]
fn place_round_trip() {
    let t = town(-123, -8764, 4186, "Saint\tPaul");
    let p = place(&chars(&place_line(&t))).unwrap();
    assert_eq!(p.zoom, "-12.3");
    assert_eq!((p.lon, p.lat), (-8764, 4186));
    assert_eq!(p.name, "Saint\tPaul");
}

// the lines of a file come back from its text
#[test]
fn file_lines_round_trip() {
    let ls = vec!["=land".to_string(), "1,2 3,4".to_string(), "".to_string(), "x".to_string()];
    let text = file_text(&ls);
    let back: Vec<String> = split_lines(&chars(&text)).into_iter().map(|l| l.into_iter().collect()).collect();
    assert_eq!(back, ls);
}

// after dedup no point repeats the one before it
#[test]
fn dedup_leaves_no_repeat() {
    let d = dedup(vec![(0, 0), (0, 0), (0, 0), (1, 0), (1, 0), (0, 0), (0, 0)]);
    assert_eq!(d, vec![(0, 0), (1, 0), (0, 0)]);
    assert!(d.windows(2).all(|w| w[0] != w[1]));
    assert_eq!(dedup(vec![]), vec![]);
}

// the file of a cell, read back, holds the runs and towns cut into it
#[test]
fn cell_file_round_trip() {
    let river_runs = lines(&ten(), &[(-8500, 4100), (-8100, 4100), (-7900, 4100), (-7800, 4200)]);
    let land_runs = vec![((9, 13), vec![(-8500, 4000), (-8000, 4000), (-8000, 4500)])];
    let cuts = [
        Cut { name: "land", runs: land_runs },
        Cut { name: "rivers", runs: river_runs },
    ];
    let towns = [town(30, -8764, 4186, "Chicago"), town(61, -7500, 4100, "Elsewhere")];
    let file = cell_file(&ten(), &cuts, &towns, (9, 13));
    assert_eq!(
        file,
        vec![
            "=land".to_string(),
            "-8500,4000 -8000,4000 -8000,4500".to_string(),
            "=rivers".to_string(),
            "-8500,4100 -8100,4100 -7900,4100".to_string(),
            "=places".to_string(),
            "3.0\t-8764\t4186\tChicago".to_string(),
        ]
    );
    let cell = parse(&file_text(&file)).unwrap();
    assert_eq!(cell.land, vec![vec![(-8500, 4000), (-8000, 4000), (-8000, 4500)]]);
    assert_eq!(cell.rivers, vec![vec![(-8500, 4100), (-8100, 4100), (-7900, 4100)]]);
    assert_eq!(cell.places.len(), 1);
    assert_eq!(cell.places[0].zoom, "3.0");
    // a cell nothing falls in is an empty file
    assert!(cell_file(&ten(), &cuts, &towns, (0, 0)).is_empty());
    let files = level_files(&ten(), &cuts, &towns);
    assert_eq!(files.len(), 36 * 18);
    assert_eq!(files[0].0, (0, 0));
    assert_eq!(files[1].0, (0, 1));
    assert_eq!(files[18].0, (1, 0));
    let at = files.iter().find(|f| f.0 == (9, 13)).unwrap();
    assert_eq!(at.1, file);
    let east = files.iter().find(|f| f.0 == (10, 13)).unwrap();
    assert_eq!(
        east.1,
        vec![
            "=rivers".to_string(),
            "-8100,4100 -7900,4100 -7800,4200".to_string(),
            "=places".to_string(),
            "6.1\t-7500\t4100\tElsewhere".to_string(),
        ]
    );
}

// the generator files a point under the cell the client looks it up in
#[test]
fn generator_and_client_cells_agree() {
    for level in levels() {
        for &(lon, lat) in &[(-18000, -9000), (-8764, 4186), (0, 0), (17999, 8999), (14530, -3780), (-1, 9500)] {
            assert_eq!(cell(&level, (lon, lat)), level.cell(lon, lat));
        }
    }
    // at the antimeridian itself the generator folds east, the client wraps west
    assert_eq!(cell(&ten(), (18000, 0)), (35, 9));
    assert_eq!(ten().cell(18000, 0), (0, 9));
}

// each run after the first starts with the segment that left the run before it
#[test]
fn runs_continue_across_cells() {
    let ps = [(100, 100), (900, 900), (1100, 1100), (1200, 1300), (2500, 1300), (3900, -100), (100, 100)];
    let runs = lines(&ten(), &ps);
    assert!(runs.len() >= 2);
    assert_eq!(runs[0].1[0], ps[0]);
    assert_eq!(*runs.last().unwrap().1.last().unwrap(), *ps.last().unwrap());
    for w in runs.windows(2) {
        let (r, s) = (&w[0].1, &w[1].1);
        assert_eq!(&s[..2], &r[r.len() - 2..]);
        assert_ne!(w[0].0, w[1].0);
    }
    assert!(lines(&ten(), &[]).is_empty());
    assert_eq!(lines(&ten(), &[(0, 0), (0, 0)]).len(), 1);
}

// a ring lands in every cell its box touches, so in the cell of each of its points
#[test]
fn ring_cells_hold_every_point() {
    let ring = [(-8500, 3500), (-6200, 3100), (-7500, 5900), (-9900, 4400)];
    let keys = ring_cells(&ten(), &ring);
    assert_eq!(keys.len(), 4 * 3);
    for &p in &ring {
        assert!(keys.contains(&cell(&ten(), p)));
    }
    assert!(ring_cells(&ten(), &[]).is_empty());
}

// the files of a level name every cell of its grid, each once
#[test]
fn level_files_name_every_cell_once() {
    for level in levels() {
        let files = level_files(&level, &[], &[]);
        let mut keys: Vec<_> = files.iter().map(|f| f.0).collect();
        assert_eq!(keys.len() as i64, level.columns() * level.rows());
        assert!(files.iter().all(|f| f.1.is_empty()));
        keys.sort();
        keys.dedup();
        assert_eq!(keys.len() as i64, level.columns() * level.rows());
        assert!(keys.iter().all(|&(ix, iy)| 0 <= ix && ix < level.columns() && 0 <= iy && iy < level.rows()));
    }
}

// every polyline read is freed of repeats
#[test]
fn polylines_free_of_repeats() {
    let features = vec![
        feature(None, "LineString", points(&[(1, 1), (1, 1), (2, 2), (2, 2), (1, 1), (1, 1)])),
        feature(None, "Polygon", list(vec![points(&[(5, 5), (5, 5), (5, 5)]), points(&[(0, 0), (3, 0), (3, 0), (0, 0)])])),
    ];
    let got = polylines(&features, &source(Keep::All), 100).unwrap();
    assert_eq!(got, vec![vec![(1, 1), (2, 2), (1, 1)], vec![(5, 5)], vec![(0, 0), (3, 0), (0, 0)]]);
    assert!(got.iter().all(|p| p.windows(2).all(|w| w[0] != w[1])));
}
