//! The detail cells of the route map: the levels that cut the world into
//! square cells, the cells under a frame, and the text format of a cell file.
use vstd::prelude::*;
use vstd::arithmetic::div_mod::{lemma_fundamental_div_mod, lemma_fundamental_div_mod_converse, lemma_mod_bound, lemma_add_mod_noop, lemma_small_mod};
use crate::text::{decimal, push_decimal, chars_between, chars_of, find, first_index, float_text, is_float, lemma_first_index, lines_of, parse_int, int_of, split_lines, split_words, string_of, views, words_of};

verus! {

/// A cell by column from the antimeridian and row from the south pole.
pub type Key = (i64, i64);

/// A point as longitude and latitude in hundredths of a degree, the unit of
/// a cell file.
pub type Point = (i64, i64);

/// The layers a cell file may carry, in drawing order.
pub const LAYERS: [&'static str; 6] = ["land", "urban", "lakes", "rivers", "admin1", "borders"];

/// The section of a cell file that holds its towns.
pub const PLACES: &'static str = "places";

/// The name of layer `i` of a cell, in drawing order.
pub open spec fn layer_name(i: int) -> Seq<char> {
    if i == 0 {
        seq!['l', 'a', 'n', 'd']
    } else if i == 1 {
        seq!['u', 'r', 'b', 'a', 'n']
    } else if i == 2 {
        seq!['l', 'a', 'k', 'e', 's']
    } else if i == 3 {
        seq!['r', 'i', 'v', 'e', 'r', 's']
    } else if i == 4 {
        seq!['a', 'd', 'm', 'i', 'n', '1']
    } else {
        seq!['b', 'o', 'r', 'd', 'e', 'r', 's']
    }
}

pub open spec fn places_name() -> Seq<char> {
    seq!['p', 'l', 'a', 'c', 'e', 's']
}

/// The layer a section name opens, if it is one of the six.
pub open spec fn layer_index(name: Seq<char>) -> Option<int> {
    if name == layer_name(0) {
        Some(0)
    } else if name == layer_name(1) {
        Some(1)
    } else if name == layer_name(2) {
        Some(2)
    } else if name == layer_name(3) {
        Some(3)
    } else if name == layer_name(4) {
        Some(4)
    } else if name == layer_name(5) {
        Some(5)
    } else {
        None
    }
}

fn same(a: &[char], b: &[char]) -> (r: bool)
    ensures
        r == (a@ == b@),
{
    if a.len() != b.len() {
        return false;
    }
    let mut i: usize = 0;
    while i < a.len()
        invariant
            i <= a@.len(),
            a@.len() == b@.len(),
            forall|j: int| 0 <= j < i ==> a@[j] == b@[j],
        decreases a@.len() - i,
    {
        if a[i] != b[i] {
            return false;
        }
        i += 1;
    }
    proof {
        assert(a@ =~= b@);
    }
    true
}

/// The layer a section name opens.
pub fn layer_of(name: &[char]) -> (r: Option<usize>)
    ensures
        match r {
            Some(i) => layer_index(name@) == Some(i as int),
            None => layer_index(name@) is None,
        },
{
    let land = ['l', 'a', 'n', 'd'];
    let urban = ['u', 'r', 'b', 'a', 'n'];
    let lakes = ['l', 'a', 'k', 'e', 's'];
    let rivers = ['r', 'i', 'v', 'e', 'r', 's'];
    let admin1 = ['a', 'd', 'm', 'i', 'n', '1'];
    let borders = ['b', 'o', 'r', 'd', 'e', 'r', 's'];
    proof {
        assert(land@ == layer_name(0));
        assert(urban@ == layer_name(1));
        assert(lakes@ == layer_name(2));
        assert(rivers@ == layer_name(3));
        assert(admin1@ == layer_name(4));
        assert(borders@ == layer_name(5));
    }
    if same(name, &land) {
        Some(0)
    } else if same(name, &urban) {
        Some(1)
    } else if same(name, &lakes) {
        Some(2)
    } else if same(name, &rivers) {
        Some(3)
    } else if same(name, &admin1) {
        Some(4)
    } else if same(name, &borders) {
        Some(5)
    } else {
        None
    }
}

/// A town of a cell: its prominence as the text the file gives it, where it
/// stands in hundredths of a degree, and its name.
#[derive(Clone, Debug, PartialEq)]
pub struct Place {
    pub zoom: String,
    pub lon: i64,
    pub lat: i64,
    pub name: String,
}

pub struct PlaceView {
    pub zoom: Seq<char>,
    pub lon: i64,
    pub lat: i64,
    pub name: Seq<char>,
}

impl View for Place {
    type V = PlaceView;

    open spec fn view(&self) -> PlaceView {
        PlaceView { zoom: self.zoom@, lon: self.lon, lat: self.lat, name: self.name@ }
    }
}

/// The layers of one cell, rings for the areas and open lines for the rest,
/// and its towns.
#[derive(Clone, Debug, PartialEq)]
pub struct Cell {
    pub land: Vec<Vec<Point>>,
    pub urban: Vec<Vec<Point>>,
    pub lakes: Vec<Vec<Point>>,
    pub rivers: Vec<Vec<Point>>,
    pub admin1: Vec<Vec<Point>>,
    pub borders: Vec<Vec<Point>>,
    pub places: Vec<Place>,
}

/// A cell as values: its six layers in drawing order, each a sequence of
/// polylines, and its towns.
pub struct CellView {
    pub layers: Seq<Seq<Seq<Point>>>,
    pub places: Seq<PlaceView>,
}

pub open spec fn lines_view(v: Seq<Vec<Point>>) -> Seq<Seq<Point>> {
    v.map_values(|l: Vec<Point>| l@)
}

pub open spec fn places_view(v: Seq<Place>) -> Seq<PlaceView> {
    v.map_values(|p: Place| p@)
}

impl View for Cell {
    type V = CellView;

    open spec fn view(&self) -> CellView {
        CellView {
            layers: seq![
                lines_view(self.land@),
                lines_view(self.urban@),
                lines_view(self.lakes@),
                lines_view(self.rivers@),
                lines_view(self.admin1@),
                lines_view(self.borders@),
            ],
            places: places_view(self.places@),
        }
    }
}

/// A cell with nothing in it.
pub open spec fn empty_cell() -> CellView {
    CellView { layers: Seq::new(6, |i: int| Seq::<Seq<Point>>::empty()), places: seq![] }
}

impl Cell {
    /// A cell with no polylines and no towns.
    pub fn new() -> (r: Cell)
        ensures
            r@ == empty_cell(),
    {
        let r = Cell {
            land: Vec::new(),
            urban: Vec::new(),
            lakes: Vec::new(),
            rivers: Vec::new(),
            admin1: Vec::new(),
            borders: Vec::new(),
            places: Vec::new(),
        };
        proof {
            assert(lines_view(r.land@) =~= Seq::<Seq<Point>>::empty());
            assert(lines_view(r.urban@) =~= Seq::<Seq<Point>>::empty());
            assert(lines_view(r.lakes@) =~= Seq::<Seq<Point>>::empty());
            assert(lines_view(r.rivers@) =~= Seq::<Seq<Point>>::empty());
            assert(lines_view(r.admin1@) =~= Seq::<Seq<Point>>::empty());
            assert(lines_view(r.borders@) =~= Seq::<Seq<Point>>::empty());
            assert(r@.layers =~= empty_cell().layers);
            assert(r@.places =~= empty_cell().places);
        }
        r
    }

    /// Adds a polyline at the end of layer `i` in drawing order.
    fn push_line(&mut self, i: usize, pl: Vec<Point>)
        requires
            i < 6,
        ensures
            final(self)@.layers =~= old(self)@.layers.update(
                i as int,
                old(self)@.layers[i as int].push(pl@),
            ),
            final(self)@.places == old(self)@.places,
    {
        let ghost v = pl@;
        if i == 0 {
            self.land.push(pl);
        } else if i == 1 {
            self.urban.push(pl);
        } else if i == 2 {
            self.lakes.push(pl);
        } else if i == 3 {
            self.rivers.push(pl);
        } else if i == 4 {
            self.admin1.push(pl);
        } else {
            self.borders.push(pl);
        }
        proof {
            assert(lines_view(old(self).land@.push(pl)) =~= lines_view(old(self).land@).push(v));
            assert(lines_view(old(self).urban@.push(pl)) =~= lines_view(old(self).urban@).push(v));
            assert(lines_view(old(self).lakes@.push(pl)) =~= lines_view(old(self).lakes@).push(v));
            assert(lines_view(old(self).rivers@.push(pl)) =~= lines_view(old(self).rivers@).push(v));
            assert(lines_view(old(self).admin1@.push(pl)) =~= lines_view(old(self).admin1@).push(v));
            assert(lines_view(old(self).borders@.push(pl)) =~= lines_view(old(self).borders@).push(v));
        }
    }

    /// The polylines of the layer a section name opens, `None` for any other
    /// name.
    pub fn layer_mut(&mut self, name: &str) -> (r: Option<&mut Vec<Vec<Point>>>)
        ensures
            match r {
                Some(l) => {
                    &&& layer_index(name@) matches Some(i)
                    &&& lines_view(l@) == old(self)@.layers[i]
                    &&& final(self)@.layers =~= old(self)@.layers.update(i, lines_view(final(l)@))
                    &&& final(self)@.places == old(self)@.places
                },
                None => layer_index(name@) is None && final(self)@ == old(self)@,
            },
    {
        let chars = chars_of(name);
        match layer_of(chars.as_slice()) {
            Some(0) => Some(&mut self.land),
            Some(1) => Some(&mut self.urban),
            Some(2) => Some(&mut self.lakes),
            Some(3) => Some(&mut self.rivers),
            Some(4) => Some(&mut self.admin1),
            Some(_) => Some(&mut self.borders),
            None => None,
        }
    }
}

/// A pair `lon,lat` of a polyline: split at its first comma, both halves
/// integers.
pub open spec fn pair_of(w: Seq<char>) -> Option<Point> {
    let i = first_index(w, ',');
    if i >= w.len() {
        None
    } else {
        match (int_of(w.take(i)), int_of(w.skip(i + 1))) {
            (Some(lon), Some(lat)) => Some((lon, lat)),
            _ => None,
        }
    }
}

/// The points of a run of pairs, `None` when one of them does not parse.
pub open spec fn points_of(ws: Seq<Seq<char>>) -> Option<Seq<Point>>
    decreases ws.len(),
{
    if ws.len() == 0 {
        Some(seq![])
    } else {
        match (points_of(ws.drop_last()), pair_of(ws.last())) {
            (Some(ps), Some(p)) => Some(ps.push(p)),
            _ => None,
        }
    }
}

/// A polyline line of a cell file: pairs separated by white space.
pub open spec fn polyline_of(line: Seq<char>) -> Option<Seq<Point>> {
    points_of(words_of(line))
}

/// A town line of a cell file: zoom, longitude, latitude and name separated
/// by the first three tabs, the name running to the end of the line; the
/// zoom is a float, the longitude and latitude integers.
pub open spec fn place_of(line: Seq<char>) -> Option<PlaceView> {
    let t0 = first_index(line, '\t');
    let t1 = t0 + 1 + first_index(line.skip(t0 + 1), '\t');
    let t2 = t1 + 1 + first_index(line.skip(t1 + 1), '\t');
    if t0 >= line.len() || t1 >= line.len() || t2 >= line.len() || !float_text(line.take(t0)) {
        None
    } else {
        match (int_of(line.subrange(t0 + 1, t1)), int_of(line.subrange(t1 + 1, t2))) {
            (Some(lon), Some(lat)) => Some(
                PlaceView { zoom: line.take(t0), lon, lat, name: line.skip(t2 + 1) },
            ),
            _ => None,
        }
    }
}

fn pair(w: &[char]) -> (r: Option<Point>)
    ensures
        r == pair_of(w@),
{
    let i = find(w, 0, ',');
    proof {
        assert(w@.skip(0) == w@);
    }
    if i == w.len() {
        return None;
    }
    let lon = parse_int(chars_between(w, 0, i).as_slice());
    let lat = parse_int(chars_between(w, i + 1, w.len()).as_slice());
    proof {
        assert(w@.subrange(0, i as int) == w@.take(i as int));
        assert(w@.subrange(i + 1, w@.len() as int) == w@.skip(i + 1));
    }
    match (lon, lat) {
        (Some(lon), Some(lat)) => Some((lon, lat)),
        _ => None,
    }
}

proof fn lemma_points_none(ws: Seq<Seq<char>>, k: int)
    requires
        0 <= k <= ws.len(),
        points_of(ws.take(k)) is None,
    ensures
        points_of(ws) is None,
    decreases ws.len() - k,
{
    if k < ws.len() {
        assert(ws.take(k + 1).drop_last() == ws.take(k));
        lemma_points_none(ws, k + 1);
    } else {
        assert(ws.take(k) == ws);
    }
}

/// A polyline line of a cell file, `None` when a pair does not parse.
pub fn polyline(line: &[char]) -> (r: Option<Vec<Point>>)
    ensures
        match r {
            Some(ps) => polyline_of(line@) == Some(ps@),
            None => polyline_of(line@) is None,
        },
{
    let words = split_words(line);
    let ghost ws = views(words@);
    let mut out: Vec<Point> = Vec::new();
    let mut i: usize = 0;
    proof {
        assert(ws.take(0) =~= Seq::<Seq<char>>::empty());
    }
    while i < words.len()
        invariant
            i <= words@.len(),
            ws == views(words@),
            ws == words_of(line@),
            points_of(ws.take(i as int)) == Some(out@),
        decreases words@.len() - i,
    {
        let p = pair(words[i].as_slice());
        proof {
            assert(ws.take(i + 1).drop_last() == ws.take(i as int));
            assert(ws.take(i + 1).last() == words@[i as int]@);
        }
        match p {
            Some(p) => {
                out.push(p);
            },
            None => {
                proof {
                    lemma_points_none(ws, i + 1);
                }
                return None;
            },
        }
        i += 1;
    }
    proof {
        assert(ws.take(words@.len() as int) == ws);
    }
    Some(out)
}

/// A town line of a cell file, `None` when it has fewer than three tabs,
/// its zoom is not a float or its longitude or latitude is not an integer.
pub fn place(line: &[char]) -> (r: Option<Place>)
    ensures
        match r {
            Some(p) => place_of(line@) == Some(p@),
            None => place_of(line@) is None,
        },
{
    let n = line.len();
    let t0 = find(line, 0, '\t');
    proof {
        assert(line@.skip(0) == line@);
    }
    if t0 == n {
        return None;
    }
    let t1 = find(line, t0 + 1, '\t');
    if t1 == n {
        return None;
    }
    let t2 = find(line, t1 + 1, '\t');
    if t2 == n {
        return None;
    }
    let zoom_text = chars_between(line, 0, t0);
    proof {
        assert(line@.subrange(0, t0 as int) == line@.take(t0 as int));
    }
    if !is_float(zoom_text.as_slice()) {
        return None;
    }
    let lon = parse_int(chars_between(line, t0 + 1, t1).as_slice());
    let lat = parse_int(chars_between(line, t1 + 1, t2).as_slice());
    match (lon, lat) {
        (Some(lon), Some(lat)) => {
            let zoom = string_of(zoom_text.as_slice());
            let name = string_of(chars_between(line, t2 + 1, n).as_slice());
            proof {
                assert(line@.subrange(0, t0 as int) == line@.take(t0 as int));
                assert(line@.subrange(t2 + 1, n as int) == line@.skip(t2 + 1));
            }
            Some(Place { zoom, lon, lat, name })
        },
        _ => None,
    }
}

/// What reading a cell file has gathered so far: the section last opened and
/// the cell.
pub struct Reading {
    pub section: Option<Seq<char>>,
    pub cell: CellView,
}

/// One line of a cell file read: an empty line is passed over, a line of `=`
/// and a name opens a section, a line before any section refuses the file,
/// a town or polyline line goes to its section and refuses the file when it
/// does not parse, a line of an unknown section is skipped.
pub open spec fn step(r: Reading, line: Seq<char>) -> Option<Reading> {
    if line.len() == 0 {
        Some(r)
    } else if line[0] == '=' {
        Some(Reading { section: Some(line.drop_first()), cell: r.cell })
    } else {
        match r.section {
            None => None,
            Some(name) => if name == places_name() {
                match place_of(line) {
                    Some(p) => Some(
                        Reading {
                            section: r.section,
                            cell: CellView { layers: r.cell.layers, places: r.cell.places.push(p) },
                        },
                    ),
                    None => None,
                }
            } else {
                match layer_index(name) {
                    Some(i) => match polyline_of(line) {
                        Some(pl) => Some(
                            Reading {
                                section: r.section,
                                cell: CellView {
                                    layers: r.cell.layers.update(i, r.cell.layers[i].push(pl)),
                                    places: r.cell.places,
                                },
                            },
                        ),
                        None => None,
                    },
                    None => Some(r),
                }
            },
        }
    }
}

/// The lines of a cell file read in order.
pub open spec fn read_lines(ls: Seq<Seq<char>>) -> Option<Reading>
    decreases ls.len(),
{
    if ls.len() == 0 {
        Some(Reading { section: None, cell: empty_cell() })
    } else {
        match read_lines(ls.drop_last()) {
            Some(r) => step(r, ls.last()),
            None => None,
        }
    }
}

/// The lines of a cell file read in order from a given point of the reading.
pub open spec fn read_from(r: Reading, ls: Seq<Seq<char>>) -> Option<Reading>
    decreases ls.len(),
{
    if ls.len() == 0 {
        Some(r)
    } else {
        match read_from(r, ls.drop_last()) {
            Some(r2) => step(r2, ls.last()),
            None => None,
        }
    }
}

pub open spec fn start_reading() -> Reading {
    Reading { section: None, cell: empty_cell() }
}

pub proof fn lemma_read_lines_from(ls: Seq<Seq<char>>)
    ensures
        read_lines(ls) == read_from(start_reading(), ls),
    decreases ls.len(),
{
    if ls.len() > 0 {
        lemma_read_lines_from(ls.drop_last());
    }
}

/// Reading two runs of lines one after the other is reading them joined.
pub proof fn lemma_read_from_add(r: Reading, a: Seq<Seq<char>>, b: Seq<Seq<char>>)
    ensures
        read_from(r, a + b) == (match read_from(r, a) {
            Some(r2) => read_from(r2, b),
            None => None,
        }),
    decreases b.len(),
{
    if b.len() == 0 {
        assert(a + b == a);
    } else {
        assert((a + b).drop_last() == a + b.drop_last());
        assert((a + b).last() == b.last());
        lemma_read_from_add(r, a, b.drop_last());
    }
}

/// The cell a run of lines holds, `None` when a line refuses it.
pub open spec fn cell_of_lines(ls: Seq<Seq<char>>) -> Option<CellView> {
    match read_lines(ls) {
        Some(r) => Some(r.cell),
        None => None,
    }
}

/// A section no reader knows: neither a layer nor the towns.
pub open spec fn unknown_section(name: Seq<char>) -> bool {
    layer_index(name) is None && name != places_name()
}

/// Lines that open no section.
pub open spec fn no_header(ls: Seq<Seq<char>>) -> bool {
    forall|i: int| 0 <= i < ls.len() ==> #[trigger] ls[i].len() == 0 || ls[i][0] != '='
}

proof fn lemma_skip_body(r: Reading, body: Seq<Seq<char>>)
    requires
        r.section matches Some(name) && unknown_section(name),
        no_header(body),
    ensures
        read_from(r, body) == Some(r),
    decreases body.len(),
{
    if body.len() > 0 {
        assert(no_header(body.drop_last())) by {
            assert forall|i: int| 0 <= i < body.drop_last().len() implies #[trigger] body.drop_last()[i].len() == 0
                || body.drop_last()[i][0] != '=' by {
                assert(body.drop_last()[i] == body[i]);
            }
        }
        lemma_skip_body(r, body.drop_last());
        assert(body.last() == body[body.len() - 1]);
    }
}

/// An unknown section is skipped, so an older reader still reads what it
/// knows: a section that no reader knows, up to the next section or the end
/// of the file, reads as if it were not there.
pub proof fn law_unknown_section_skipped(
    a: Seq<Seq<char>>,
    name: Seq<char>,
    body: Seq<Seq<char>>,
    b: Seq<Seq<char>>,
)
    requires
        unknown_section(name),
        no_header(body),
        b.len() > 0 ==> b[0].len() > 0 && b[0][0] == '=',
    ensures
        cell_of_lines(a + seq![seq!['='] + name] + body + b) == cell_of_lines(a + b),
{
    let hdr = seq![seq!['='] + name];
    let start = start_reading();
    lemma_read_lines_from(a + hdr + body + b);
    lemma_read_lines_from(a + b);
    lemma_read_from_add(start, a + hdr + body, b);
    lemma_read_from_add(start, a + hdr, body);
    lemma_read_from_add(start, a, hdr);
    lemma_read_from_add(start, a, b);
    match read_from(start, a) {
        None => {},
        Some(r) => {
            assert(hdr.drop_last().len() == 0);
            assert(read_from(r, hdr.drop_last()) == Some(r));
            assert((seq!['='] + name)[0] == '=');
            assert((seq!['='] + name).drop_first() == name);
            let r1 = Reading { section: Some(name), cell: r.cell };
            assert(read_from(r, hdr) == Some(r1));
            lemma_skip_body(r1, body);
            if b.len() > 0 {
                let first = seq![b[0]];
                let rest = b.drop_first();
                assert(b == first + rest);
                lemma_read_from_add(r1, first, rest);
                lemma_read_from_add(r, first, rest);
                assert(first.drop_last().len() == 0);
                assert(read_from(r1, first.drop_last()) == Some(r1));
                assert(read_from(r, first.drop_last()) == Some(r));
                assert(read_from(r1, first) == read_from(r, first));
            }
        },
    }
}

/// The cell a cell file holds, `None` when a line refuses it.
pub open spec fn cell_of(text: Seq<char>) -> Option<CellView> {
    cell_of_lines(lines_of(text))
}

proof fn lemma_read_none(ls: Seq<Seq<char>>, k: int)
    requires
        0 <= k <= ls.len(),
        read_lines(ls.take(k)) is None,
    ensures
        read_lines(ls) is None,
    decreases ls.len() - k,
{
    if k < ls.len() {
        assert(ls.take(k + 1).drop_last() == ls.take(k));
        lemma_read_none(ls, k + 1);
    } else {
        assert(ls.take(k) == ls);
    }
}

pub open spec fn section_view(s: Option<Vec<char>>) -> Option<Seq<char>> {
    match s {
        Some(v) => Some(v@),
        None => None,
    }
}

/// A cell file: a line of `=` and a name opens a section, a polyline is
/// `lon,lat` pairs in hundredths of a degree, a town is zoom, longitude,
/// latitude and name tab separated. An unknown section is skipped, so an
/// older reader still reads what it knows; `None` on a line that does not
/// parse.
pub fn parse(text: &str) -> (r: Option<Cell>)
    ensures
        match r {
            Some(c) => cell_of(text@) == Some(c@),
            None => cell_of(text@) is None,
        },
{
    let chars = chars_of(text);
    let lines = split_lines(chars.as_slice());
    let ghost ls = views(lines@);
    let mut cell = Cell::new();
    let mut section: Option<Vec<char>> = None;
    let places_word = ['p', 'l', 'a', 'c', 'e', 's'];
    proof {
        assert(places_word@ == places_name());
        assert(ls.take(0) =~= Seq::<Seq<char>>::empty());
    }
    let mut i: usize = 0;
    while i < lines.len()
        invariant
            i <= lines@.len(),
            ls == views(lines@),
            ls == lines_of(text@),
            places_word@ == places_name(),
            read_lines(ls.take(i as int)) == Some(
                Reading { section: section_view(section), cell: cell@ },
            ),
        decreases lines@.len() - i,
    {
        let line = lines[i].as_slice();
        proof {
            assert(ls.take(i + 1).drop_last() == ls.take(i as int));
            assert(ls.take(i + 1).last() == line@);
        }
        if line.len() == 0 {
        } else if line[0] == '=' {
            let name = chars_between(line, 1, line.len());
            proof {
                assert(name@ == line@.drop_first());
            }
            section = Some(name);
        } else {
            match &section {
                None => {
                    proof {
                        lemma_read_none(ls, i + 1);
                    }
                    return None;
                },
                Some(name) => {
                    if same(name.as_slice(), &places_word) {
                        match place(line) {
                            Some(p) => {
                                let ghost before = cell@;
                                cell.places.push(p);
                                proof {
                                    assert(cell@.places =~= before.places.push(p@));
                                    assert(cell@.layers =~= before.layers);
                                }
                            },
                            None => {
                                proof {
                                    lemma_read_none(ls, i + 1);
                                }
                                return None;
                            },
                        }
                    } else {
                        match layer_of(name.as_slice()) {
                            Some(k) => match polyline(line) {
                                Some(pl) => {
                                    cell.push_line(k, pl);
                                },
                                None => {
                                    proof {
                                        lemma_read_none(ls, i + 1);
                                    }
                                    return None;
                                },
                            },
                            None => {},
                        }
                    }
                },
            }
        }
        i += 1;
    }
    proof {
        assert(ls.take(lines@.len() as int) == ls);
    }
    Some(cell)
}

/// A detail level of the route map: natural earth cut into square cells of
/// `deg` degrees. A frame narrower than `max_w` map units takes the level,
/// the first that holds it wins.
#[derive(Clone, Copy, Debug, PartialEq)]
pub struct Level {
    pub name: &'static str,
    pub deg: u32,
    pub max_w: u32,
}

/// Ten degree cells for frames under thirty map units, thirty degree cells
/// under 120; wider frames keep the embedded base, which is drawn for the
/// world.
pub fn levels() -> (r: [Level; 2])
    ensures
        r[0].name@ == "10m"@ && r[0].deg == 10 && r[0].max_w == 30,
        r[1].name@ == "50m"@ && r[1].deg == 30 && r[1].max_w == 120,
{
    [Level { name: "10m", deg: 10, max_w: 30 }, Level { name: "50m", deg: 30, max_w: 120 }]
}

/// The number of cells around the world, `360 / deg` rounded half away from
/// zero.
pub open spec fn columns_of(deg: int) -> int {
    (720 + deg) / (2 * deg)
}

/// The number of cells from pole to pole, `180 / deg` rounded half away
/// from zero.
pub open spec fn rows_of(deg: int) -> int {
    (360 + deg) / (2 * deg)
}

/// A cell from its column and row before wrapping: the column wraps around
/// the world, the row folds into the first or last.
pub open spec fn wrap_of(deg: int, ix: int, iy: int) -> Key {
    (
        (ix % columns_of(deg)) as i64,
        (if iy < 0 {
            0
        } else if iy > rows_of(deg) - 1 {
            rows_of(deg) - 1
        } else {
            iy
        }) as i64,
    )
}

/// The cells a frame covers: the columns `c0..=c1` before wrapping and the
/// rows `r0..=r1`, south to north.
#[derive(Clone, Copy, Debug, PartialEq)]
pub struct Span {
    pub c0: i64,
    pub c1: i64,
    pub r0: i64,
    pub r1: i64,
}

/// How many columns a span takes, never more than go around the world.
pub open spec fn span_width(cols: int, s: Span) -> int {
    if s.c1 - s.c0 + 1 < cols {
        s.c1 - s.c0 + 1
    } else {
        cols
    }
}

pub open spec fn span_height(s: Span) -> int {
    s.r1 - s.r0 + 1
}

/// The cell at position `k` of the cells under a span, west to east within
/// south to north.
pub open spec fn key_at(cols: int, s: Span, k: int) -> Key {
    let w = span_width(cols, s);
    (((s.c0 + k % w) % cols) as i64, (s.r0 + k / w) as i64)
}

/// Every cell under a span, west to east within south to north, the columns
/// wrapped after they are counted.
pub open spec fn keys_of(cols: int, s: Span) -> Seq<Key> {
    let w = span_width(cols, s);
    let h = span_height(s);
    if w <= 0 || h <= 0 {
        seq![]
    } else {
        Seq::new((w * h) as nat, |k: int| key_at(cols, s, k))
    }
}

/// The file of a cell under its level directory, named by its south west
/// corner in degrees.
pub open spec fn file_of(name: Seq<char>, deg: int, key: Key) -> Seq<char> {
    name + seq!['/'] + decimal(key.0 * deg - 180) + seq!['_'] + decimal(key.1 * deg - 90) + seq![
        '.',
        't',
        'x',
        't',
    ]
}

pub open spec fn url_of(name: Seq<char>, deg: int, key: Key) -> Seq<char> {
    seq!['/', 'c', 'e', 'l', 'l', 's', '/'] + file_of(name, deg, key)
}

/// Where the detail server hands out a cell is `/cells/` and the file of
/// that same cell.
pub proof fn law_url_is_file(name: Seq<char>, deg: int, key: Key)
    ensures
        url_of(name, deg, key) == "/cells/"@ + file_of(name, deg, key),
{
    reveal_strlit("/cells/");
    assert(url_of(name, deg, key) =~= "/cells/"@ + file_of(name, deg, key));
}

/// A decimal is digits after an optional minus: it holds no `_`.
proof fn lemma_decimal_no_underscore(v: int)
    ensures
        forall|i: int| 0 <= i < decimal(v).len() ==> #[trigger] decimal(v)[i] != '_',
{
    crate::text::lemma_int_text_decimal(v);
    let s = decimal(v);
    assert forall|i: int| 0 <= i < s.len() implies #[trigger] s[i] != '_' by {
        if s[0] == '-' || s[0] == '+' {
            if i > 0 {
                assert(s.drop_first()[i - 1] == s[i]);
                assert(crate::text::is_digit(s.drop_first()[i - 1]));
            }
        } else {
            assert(crate::text::is_digit(s[i]));
        }
    }
}

proof fn lemma_first_after(s: Seq<char>, c: char, t: Seq<char>)
    requires
        forall|i: int| 0 <= i < s.len() ==> s[i] != c,
    ensures
        first_index(s + seq![c] + t, c) == s.len(),
    decreases s.len(),
{
    if s.len() > 0 {
        assert((s + seq![c] + t).drop_first() == s.drop_first() + seq![c] + t);
        lemma_first_after(s.drop_first(), c, t);
    } else {
        assert(s + seq![c] + t == seq![c] + t);
    }
}

/// Two cells of a level never share a file, so never a url: the file names
/// the cell it holds.
pub proof fn law_files_distinct(name: Seq<char>, deg: int, k1: Key, k2: Key)
    requires
        deg > 0,
        file_of(name, deg, k1) == file_of(name, deg, k2),
    ensures
        k1 == k2,
{
    let a1 = decimal(k1.0 * deg - 180);
    let a2 = decimal(k2.0 * deg - 180);
    let b1 = decimal(k1.1 * deg - 90);
    let b2 = decimal(k2.1 * deg - 90);
    let ext = seq!['.', 't', 'x', 't'];
    let p = name + seq!['/'];
    let r1 = a1 + seq!['_'] + (b1 + ext);
    let r2 = a2 + seq!['_'] + (b2 + ext);
    assert(file_of(name, deg, k1) == p + r1);
    assert(file_of(name, deg, k2) == p + r2);
    assert((p + r1).skip(p.len() as int) == r1);
    assert((p + r2).skip(p.len() as int) == r2);
    assert(r1 == r2);
    lemma_decimal_no_underscore(k1.0 * deg - 180);
    lemma_decimal_no_underscore(k2.0 * deg - 180);
    lemma_first_after(a1, '_', b1 + ext);
    lemma_first_after(a2, '_', b2 + ext);
    assert(r1.take(a1.len() as int) == a1);
    assert(r2.take(a2.len() as int) == a2);
    assert(a1 == a2);
    assert(r1.skip(a1.len() as int + 1) == b1 + ext);
    assert(r2.skip(a2.len() as int + 1) == b2 + ext);
    assert((b1 + ext).take(b1.len() as int) == b1);
    assert((b2 + ext).take(b2.len() as int) == b2);
    assert(b1 == b2);
    crate::text::lemma_int_text_decimal(k1.0 * deg - 180);
    crate::text::lemma_int_text_decimal(k2.0 * deg - 180);
    crate::text::lemma_int_text_decimal(k1.1 * deg - 90);
    crate::text::lemma_int_text_decimal(k2.1 * deg - 90);
    assert(k1.0 * deg == k2.0 * deg);
    assert(k1.1 * deg == k2.1 * deg);
    assert(k1.0 == k2.0) by (nonlinear_arith)
        requires
            k1.0 * deg == k2.0 * deg,
            deg > 0,
    ;
    assert(k1.1 == k2.1) by (nonlinear_arith)
        requires
            k1.1 * deg == k2.1 * deg,
            deg > 0,
    ;
}

/// A level of at most half a world has at least one column and one row.
pub proof fn lemma_grid(deg: int)
    requires
        0 < deg <= 360,
    ensures
        1 <= rows_of(deg) <= columns_of(deg) <= 36000,
{
    assert((720 + deg) / (2 * deg) >= 1) by (nonlinear_arith)
        requires
            0 < deg <= 360,
    ;
    assert((360 + deg) / (2 * deg) >= 1) by (nonlinear_arith)
        requires
            0 < deg <= 360,
    ;
    assert((360 + deg) / (2 * deg) <= (720 + deg) / (2 * deg)) by (nonlinear_arith)
        requires
            0 < deg <= 360,
    ;
    assert((720 + deg) / (2 * deg) <= 36000) by (nonlinear_arith)
        requires
            0 < deg <= 360,
    ;
}

impl Level {
    /// A level cuts the world into cells when a cell is at most as high as
    /// the world, so that there is a row for the poles to fold into.
    pub open spec fn wf(&self) -> bool {
        0 < self.deg <= 360
    }

    pub fn columns(&self) -> (r: i64)
        requires
            self.deg > 0,
        ensures
            r == columns_of(self.deg as int),
    {
        let d = self.deg as u64;
        ((720 + d) / (2 * d)) as i64
    }

    pub fn rows(&self) -> (r: i64)
        requires
            self.deg > 0,
        ensures
            r == rows_of(self.deg as int),
    {
        let d = self.deg as u64;
        ((360 + d) / (2 * d)) as i64
    }

    /// The cell of a column and a row counted before wrapping.
    pub fn wrap(&self, ix: i64, iy: i64) -> (r: Key)
        requires
            self.wf(),
        ensures
            r == wrap_of(self.deg as int, ix as int, iy as int),
            0 <= r.0 < columns_of(self.deg as int),
            0 <= r.1 < rows_of(self.deg as int),
    {
        let cols = self.columns();
        let rows = self.rows();
        proof {
            lemma_grid(self.deg as int);
            lemma_mod_bound(ix as int, cols as int);
        }
        let x = match ix.checked_rem_euclid(cols) {
            Some(x) => x,
            None => 0,
        };
        let y = if iy < 0 {
            0
        } else if iy > rows - 1 {
            rows - 1
        } else {
            iy
        };
        (x, y)
    }

    /// The cell holding a point given in hundredths of a degree; longitude
    /// wraps and the poles fold into the last row.
    pub fn cell(&self, lon: i64, lat: i64) -> (r: Key)
        requires
            self.wf(),
        ensures
            r == wrap_of(
                self.deg as int,
                (lon + 18000) / (100 * self.deg),
                (lat + 9000) / (100 * self.deg),
            ),
    {
        let d = 100 * (self.deg as i128);
        proof {
            assert(d > 0);
            assert(-0x8000_0000_0000_0000 <= (lon + 18000) / (d as int) <= 0x7fff_ffff_ffff_ffff) by (nonlinear_arith)
                requires
                    d >= 100,
                    -0x8000_0000_0000_0000 <= lon <= 0x7fff_ffff_ffff_ffff,
            ;
            assert(-0x8000_0000_0000_0000 <= (lat + 9000) / (d as int) <= 0x7fff_ffff_ffff_ffff) by (nonlinear_arith)
                requires
                    d >= 100,
                    -0x8000_0000_0000_0000 <= lat <= 0x7fff_ffff_ffff_ffff,
            ;
        }
        let ix = match (lon as i128 + 18000).checked_div_euclid(d) {
            Some(q) => q,
            None => 0,
        };
        let iy = match (lat as i128 + 9000).checked_div_euclid(d) {
            Some(q) => q,
            None => 0,
        };
        proof {
            assert(ix == (lon + 18000) / (100 * self.deg));
        }
        self.wrap(ix as i64, iy as i64)
    }

    /// The south west corner of a cell in whole degrees.
    pub fn corner(&self, key: Key) -> (r: (i128, i128))
        ensures
            r.0 == key.0 * self.deg - 180,
            r.1 == key.1 * self.deg - 90,
    {
        let d = self.deg as i128;
        proof {
            assert(-0x1_0000_0000_0000_0000_0000_0000 <= key.0 * d <= 0x1_0000_0000_0000_0000_0000_0000) by (nonlinear_arith)
                requires
                    0 <= d <= 0xffff_ffff,
                    -0x8000_0000_0000_0000 <= key.0 <= 0x7fff_ffff_ffff_ffff,
            ;
            assert(-0x1_0000_0000_0000_0000_0000_0000 <= key.1 * d <= 0x1_0000_0000_0000_0000_0000_0000) by (nonlinear_arith)
                requires
                    0 <= d <= 0xffff_ffff,
                    -0x8000_0000_0000_0000 <= key.1 <= 0x7fff_ffff_ffff_ffff,
            ;
        }
        (key.0 as i128 * d - 180, key.1 as i128 * d - 90)
    }

    /// The file of a cell under the level directory, named by its corner.
    pub fn file(&self, key: Key) -> (r: String)
        ensures
            r@ == file_of(self.name@, self.deg as int, key),
    {
        let (lon, lat) = self.corner(key);
        let mut out = chars_of(self.name);
        out.push('/');
        push_decimal(&mut out, lon);
        out.push('_');
        push_decimal(&mut out, lat);
        out.push('.');
        out.push('t');
        out.push('x');
        out.push('t');
        proof {
            assert(out@ =~= file_of(self.name@, self.deg as int, key));
        }
        string_of(out.as_slice())
    }

    /// Where the detail server hands out the file of a cell.
    pub fn url(&self, key: Key) -> (r: String)
        ensures
            r@ == url_of(self.name@, self.deg as int, key),
    {
        let mut out = vec!['/', 'c', 'e', 'l', 'l', 's', '/'];
        let file = self.file(key);
        let chars = chars_of(file.as_str());
        let mut i: usize = 0;
        let ghost start = out@;
        while i < chars.len()
            invariant
                i <= chars@.len(),
                chars@ == file@,
                out@ == start + chars@.take(i as int),
            decreases chars@.len() - i,
        {
            out.push(chars[i]);
            proof {
                assert(chars@.take(i + 1) == chars@.take(i as int).push(chars@[i as int]));
            }
            i += 1;
        }
        proof {
            assert(chars@.take(chars@.len() as int) == chars@);
            assert(out@ =~= url_of(self.name@, self.deg as int, key));
        }
        string_of(out.as_slice())
    }

    /// Every cell under a span, west to east within south to north. The
    /// columns are counted before they wrap, so a frame over the antimeridian
    /// keeps both sides, and a frame wider than the world names each column
    /// once.
    pub fn keys(&self, span: &Span) -> (r: Vec<Key>)
        requires
            self.wf(),
        ensures
            r@ == keys_of(columns_of(self.deg as int), *span),
    {
        let cols = self.columns() as i128;
        let ghost c = columns_of(self.deg as int);
        let wide = span.c1 as i128 - span.c0 as i128 + 1;
        let width: i128 = if wide < cols { wide } else { cols };
        let mut out: Vec<Key> = Vec::new();
        if width <= 0 || span.r1 < span.r0 {
            proof {
                assert(out@ =~= keys_of(c, *span));
            }
            return out;
        }
        proof {
            assert(width == span_width(c, *span));
            lemma_grid(self.deg as int);
        }
        let mut iy: i128 = span.r0 as i128;
        proof {
            assert((iy - span.r0) * width == 0) by (nonlinear_arith)
                requires
                    iy == span.r0,
            ;
        }
        while iy <= span.r1 as i128
            invariant
                span.r0 <= iy <= span.r1 + 1,
                0 < width <= cols,
                cols == c,
                c >= 1,
                width == span_width(c, *span),
                out@.len() == (iy - span.r0) * width,
                forall|k: int| 0 <= k < out@.len() ==> #[trigger] out@[k] == key_at(c, *span, k),
            decreases span.r1 + 1 - iy,
        {
            let mut b: i128 = 0;
            while b < width
                invariant
                    span.r0 <= iy <= span.r1,
                    0 <= b <= width,
                    0 < width <= cols,
                    cols == c,
                    c >= 1,
                    width == span_width(c, *span),
                    out@.len() == (iy - span.r0) * width + b,
                    forall|k: int| 0 <= k < out@.len() ==> #[trigger] out@[k] == key_at(c, *span, k),
                decreases width - b,
            {
                let col = span.c0 as i128 + b;
                let x = match col.checked_rem_euclid(cols) {
                    Some(x) => x,
                    None => 0,
                };
                let ghost k = (iy - span.r0) * width + b;
                proof {
                    lemma_fundamental_div_mod_converse(k, width as int, iy - span.r0, b as int);
                    lemma_mod_bound(col as int, cols as int);
                }
                out.push((x as i64, iy as i64));
                b += 1;
            }
            proof {
                assert((iy - span.r0) * width + width == (iy + 1 - span.r0) * width) by (nonlinear_arith);
            }
            iy += 1;
        }
        proof {
            assert(width * span_height(*span) == (iy - span.r0) * width) by (nonlinear_arith)
                requires
                    iy == span.r1 + 1,
                    span_height(*span) == span.r1 - span.r0 + 1,
            ;
            assert(out@ =~= keys_of(c, *span));
        }
        out
    }
}

/// The cells under a span are all different: a span never names a column
/// twice, however wide, nor a row twice.
pub proof fn law_keys_distinct(level: Level, span: Span)
    requires
        level.wf(),
    ensures
        keys_of(columns_of(level.deg as int), span).no_duplicates(),
{
    let c = columns_of(level.deg as int);
    let w = span_width(c, span);
    let ks = keys_of(c, span);
    lemma_grid(level.deg as int);
    assert forall|i: int, j: int| 0 <= i < ks.len() && 0 <= j < ks.len() && i != j implies ks[i]
        != ks[j] by {
        lemma_keys_at_differ(c, span, i, j);
    }
}

proof fn lemma_keys_at_differ(c: int, span: Span, i: int, j: int)
    requires
        1 <= c <= 36000,
        span_width(c, span) > 0,
        span_height(span) > 0,
        0 <= i < span_width(c, span) * span_height(span),
        0 <= j < span_width(c, span) * span_height(span),
        i != j,
    ensures
        key_at(c, span, i) != key_at(c, span, j),
{
    let w = span_width(c, span);
    lemma_fundamental_div_mod(i, w);
    lemma_fundamental_div_mod(j, w);
    lemma_mod_bound(i, w);
    lemma_mod_bound(j, w);
    if i / w == j / w {
        let a = i % w;
        let b = j % w;
        assert(a != b);
        let x = span.c0 + a;
        let y = span.c0 + b;
        if x % c == y % c {
            lemma_fundamental_div_mod(x, c);
            lemma_fundamental_div_mod(y, c);
            assert(x - y == c * (x / c - y / c)) by (nonlinear_arith)
                requires
                    x == c * (x / c) + x % c,
                    y == c * (y / c) + y % c,
                    x % c == y % c,
            ;
            assert(-c < x - y < c);
            assert(x - y != 0);
            assert(false) by (nonlinear_arith)
                requires
                    x - y == c * (x / c - y / c),
                    -c < x - y < c,
                    x - y != 0,
                    c > 0,
            ;
        }
        lemma_mod_bound(x, c);
        lemma_mod_bound(y, c);
        assert(key_at(c, span, i).0 == x % c);
        assert(key_at(c, span, j).0 == y % c);
    } else {
        assert(span.r0 + i / w <= span.r1) by (nonlinear_arith)
            requires
                i < w * (span.r1 - span.r0 + 1),
                0 <= i,
                w > 0,
        ;
        assert(span.r0 + j / w <= span.r1) by (nonlinear_arith)
            requires
                j < w * (span.r1 - span.r0 + 1),
                0 <= j,
                w > 0,
        ;
        assert(0 <= i / w && 0 <= j / w) by (nonlinear_arith)
            requires
                0 <= i,
                0 <= j,
                w > 0,
        ;
        assert(key_at(c, span, i).1 == span.r0 + i / w);
        assert(key_at(c, span, j).1 == span.r0 + j / w);
    }
}

/// A frame misses no cell: every column counted between the span's first
/// and last, wrapped around the world, and every row between its bottom and
/// top make a cell under it.
pub proof fn law_keys_cover(level: Level, span: Span, col: int, row: int)
    requires
        level.wf(),
        span.c0 <= col <= span.c1,
        span.r0 <= row <= span.r1,
    ensures
        keys_of(columns_of(level.deg as int), span).contains(
            ((col % columns_of(level.deg as int)) as i64, row as i64),
        ),
{
    let c = columns_of(level.deg as int);
    let w = span_width(c, span);
    let ks = keys_of(c, span);
    lemma_grid(level.deg as int);
    let b = if col - span.c0 < w {
        col - span.c0
    } else {
        (col - span.c0) % c
    };
    lemma_mod_bound(col - span.c0, c);
    let k = (row - span.r0) * w + b;
    assert(0 <= k < w * span_height(span)) by (nonlinear_arith)
        requires
            0 <= b < w,
            0 <= row - span.r0 < span_height(span),
            k == (row - span.r0) * w + b,
    ;
    lemma_fundamental_div_mod_converse(k, w, row - span.r0, b);
    if col - span.c0 < w {
    } else {
        assert(w == c);
        lemma_add_mod_noop(span.c0 as int, col - span.c0, c);
        lemma_add_mod_noop(span.c0 as int, (col - span.c0) % c, c);
        lemma_mod_bound(col - span.c0, c);
        lemma_small_mod(((col - span.c0) % c) as nat, c as nat);
    }
    assert(ks[k] == ((col % c) as i64, row as i64));
}

/// The cell of every point under a frame is among its keys: a point whose
/// column, counted before wrapping, lies between the span's first and last,
/// and whose row, after folding the poles, lies between its bottom and top.
pub proof fn law_keys_hold_cells(level: Level, span: Span, lon: i64, lat: i64)
    requires
        level.wf(),
        span.c0 <= (lon + 18000) / (100 * level.deg) <= span.c1,
        span.r0 <= wrap_of(
            level.deg as int,
            (lon + 18000) / (100 * level.deg),
            (lat + 9000) / (100 * level.deg),
        ).1 <= span.r1,
    ensures
        keys_of(columns_of(level.deg as int), span).contains(
            wrap_of(
                level.deg as int,
                (lon + 18000) / (100 * level.deg),
                (lat + 9000) / (100 * level.deg),
            ),
        ),
{
    let d = level.deg as int;
    let ix = (lon + 18000) / (100 * d);
    let w = wrap_of(d, ix, (lat + 9000) / (100 * d));
    lemma_grid(d);
    law_keys_cover(level, span, ix, w.1 as int);
}

/// The svg paths of a set of cells, one per layer.
#[derive(Clone, Debug, PartialEq)]
pub struct Paths {
    pub land: String,
    pub urban: String,
    pub lakes: String,
    pub rivers: String,
    pub admin1: String,
    pub borders: String,
}

/// The svg path of each polyline of one cell, layer by layer in drawing
/// order, as drawn on the copy of the world the frame sits on, not yet
/// closed.
#[derive(Clone, Debug, PartialEq)]
pub struct Shapes {
    pub land: Vec<String>,
    pub urban: Vec<String>,
    pub lakes: Vec<String>,
    pub rivers: Vec<String>,
    pub admin1: Vec<String>,
    pub borders: Vec<String>,
}

pub open spec fn strings_view(v: Seq<String>) -> Seq<Seq<char>> {
    v.map_values(|s: String| s@)
}

impl Shapes {
    pub open spec fn layer(&self, i: int) -> Seq<Seq<char>> {
        if i == 0 {
            strings_view(self.land@)
        } else if i == 1 {
            strings_view(self.urban@)
        } else if i == 2 {
            strings_view(self.lakes@)
        } else if i == 3 {
            strings_view(self.rivers@)
        } else if i == 4 {
            strings_view(self.admin1@)
        } else {
            strings_view(self.borders@)
        }
    }

    fn layer_ref(&self, i: usize) -> (r: &Vec<String>)
        requires
            i < 6,
        ensures
            strings_view(r@) == self.layer(i as int),
    {
        if i == 0 {
            &self.land
        } else if i == 1 {
            &self.urban
        } else if i == 2 {
            &self.lakes
        } else if i == 3 {
            &self.rivers
        } else if i == 4 {
            &self.admin1
        } else {
            &self.borders
        }
    }
}

/// The areas (land, urban, lakes) are rings and close, the rest are open
/// lines.
pub open spec fn ring_layer(i: int) -> bool {
    i < 3
}

/// One shape as drawn: a ring closes with `Z` unless it is empty.
pub open spec fn closed(d: Seq<char>, ring: bool) -> Seq<char> {
    if ring && d.len() > 0 {
        d.push('Z')
    } else {
        d
    }
}

/// The shapes of one layer of one cell, one after another.
pub open spec fn joined(ds: Seq<Seq<char>>, ring: bool) -> Seq<char>
    decreases ds.len(),
{
    if ds.len() == 0 {
        seq![]
    } else {
        joined(ds.drop_last(), ring) + closed(ds.last(), ring)
    }
}

/// The path of layer `i` over a set of cells, cell after cell.
pub open spec fn layer_path(cells: Seq<Shapes>, i: int) -> Seq<char>
    decreases cells.len(),
{
    if cells.len() == 0 {
        seq![]
    } else {
        layer_path(cells.drop_last(), i) + joined(cells.last().layer(i), ring_layer(i))
    }
}

/// A shape closed back to its start: `Z` after it, unless it is empty.
pub open spec fn closed_shape(d: Seq<char>) -> Seq<char> {
    if d.len() == 0 {
        d
    } else {
        d + seq!['Z']
    }
}

proof fn lemma_joined_flat(ds: Seq<Seq<char>>, ring: bool)
    ensures
        !ring ==> joined(ds, ring) == ds.flatten(),
        ring ==> joined(ds, ring) == ds.map_values(|d: Seq<char>| closed_shape(d)).flatten(),
    decreases ds.len(),
{
    let cs = ds.map_values(|d: Seq<char>| closed_shape(d));
    ds.lemma_flatten_and_flatten_alt_are_equivalent();
    cs.lemma_flatten_and_flatten_alt_are_equivalent();
    if ds.len() > 0 {
        lemma_joined_flat(ds.drop_last(), ring);
        ds.drop_last().lemma_flatten_and_flatten_alt_are_equivalent();
        let cd = ds.drop_last().map_values(|d: Seq<char>| closed_shape(d));
        cd.lemma_flatten_and_flatten_alt_are_equivalent();
        assert(cs.drop_last() =~= cd);
        assert(cs.last() == closed_shape(ds.last()));
        if ds.last().len() > 0 {
            assert(closed(ds.last(), true) == closed_shape(ds.last()));
        }
    }
}

/// The lines (rivers, state lines, borders) stay open: the path of such a
/// layer is the shapes of that layer, cell after cell, each as it is, with
/// nothing added.
pub proof fn law_lines_stay_open(cells: Seq<Shapes>, i: int)
    requires
        3 <= i < 6,
    ensures
        layer_path(cells, i) == cells.map_values(|c: Shapes| c.layer(i).flatten()).flatten(),
    decreases cells.len(),
{
    let m = cells.map_values(|c: Shapes| c.layer(i).flatten());
    m.lemma_flatten_and_flatten_alt_are_equivalent();
    if cells.len() > 0 {
        law_lines_stay_open(cells.drop_last(), i);
        let md = cells.drop_last().map_values(|c: Shapes| c.layer(i).flatten());
        md.lemma_flatten_and_flatten_alt_are_equivalent();
        assert(m.drop_last() =~= md);
        lemma_joined_flat(cells.last().layer(i), false);
    }
}

/// The areas (land, urban, lakes) close: the path of such a layer is each
/// shape of that layer, cell after cell, followed by `Z` unless it is
/// empty.
pub proof fn law_areas_close(cells: Seq<Shapes>, i: int)
    requires
        0 <= i < 3,
    ensures
        layer_path(cells, i) == cells.map_values(
            |c: Shapes| c.layer(i).map_values(|d: Seq<char>| closed_shape(d)).flatten(),
        ).flatten(),
    decreases cells.len(),
{
    let m = cells.map_values(
        |c: Shapes| c.layer(i).map_values(|d: Seq<char>| closed_shape(d)).flatten(),
    );
    m.lemma_flatten_and_flatten_alt_are_equivalent();
    if cells.len() > 0 {
        law_areas_close(cells.drop_last(), i);
        let md = cells.drop_last().map_values(
            |c: Shapes| c.layer(i).map_values(|d: Seq<char>| closed_shape(d)).flatten(),
        );
        md.lemma_flatten_and_flatten_alt_are_equivalent();
        assert(m.drop_last() =~= md);
        lemma_joined_flat(cells.last().layer(i), true);
    }
}

fn append_chars(out: &mut Vec<char>, s: &str)
    ensures
        final(out)@ == old(out)@ + s@,
{
    let cs = chars_of(s);
    let mut i: usize = 0;
    let ghost start = out@;
    while i < cs.len()
        invariant
            i <= cs@.len(),
            cs@ == s@,
            out@ == start + cs@.take(i as int),
        decreases cs@.len() - i,
    {
        out.push(cs[i]);
        proof {
            assert(cs@.take(i + 1) == cs@.take(i as int).push(cs@[i as int]));
        }
        i += 1;
    }
    proof {
        assert(cs@.take(cs@.len() as int) == cs@);
    }
}

fn layer_text(cells: &[Shapes], i: usize) -> (r: String)
    requires
        i < 6,
    ensures
        r@ == layer_path(cells@, i as int),
{
    let mut out: Vec<char> = Vec::new();
    let ring = i < 3;
    let mut c: usize = 0;
    proof {
        assert(cells@.take(0) =~= Seq::<Shapes>::empty());
    }
    while c < cells.len()
        invariant
            c <= cells@.len(),
            i < 6,
            ring == ring_layer(i as int),
            out@ == layer_path(cells@.take(c as int), i as int),
        decreases cells@.len() - c,
    {
        let ds = cells[c].layer_ref(i);
        let ghost before = out@;
        let ghost dv = strings_view(ds@);
        let mut k: usize = 0;
        proof {
            assert(dv.take(0) =~= Seq::<Seq<char>>::empty());
        }
        while k < ds.len()
            invariant
                k <= ds@.len(),
                dv == strings_view(ds@),
                out@ == before + joined(dv.take(k as int), ring),
            decreases ds@.len() - k,
        {
            let d = ds[k].as_str();
            let was = out.len();
            append_chars(&mut out, d);
            if ring && out.len() > was {
                out.push('Z');
            }
            proof {
                assert(dv.take(k + 1).drop_last() == dv.take(k as int));
                assert(dv.take(k + 1).last() == d@);
            }
            k += 1;
        }
        proof {
            assert(dv.take(ds@.len() as int) == dv);
            assert(cells@.take(c + 1).drop_last() == cells@.take(c as int));
            assert(cells@.take(c + 1).last() == cells@[c as int]);
        }
        c += 1;
    }
    proof {
        assert(cells@.take(cells@.len() as int) == cells@);
    }
    string_of(out.as_slice())
}

/// The svg paths of a set of cells: each layer draws the shapes of every
/// cell in order, rings close.
pub fn paths(cells: &[Shapes]) -> (r: Paths)
    ensures
        r.land@ == layer_path(cells@, 0),
        r.urban@ == layer_path(cells@, 1),
        r.lakes@ == layer_path(cells@, 2),
        r.rivers@ == layer_path(cells@, 3),
        r.admin1@ == layer_path(cells@, 4),
        r.borders@ == layer_path(cells@, 5),
{
    Paths {
        land: layer_text(cells, 0),
        urban: layer_text(cells, 1),
        lakes: layer_text(cells, 2),
        rivers: layer_text(cells, 3),
        admin1: layer_text(cells, 4),
        borders: layer_text(cells, 5),
    }
}

} // verus!
