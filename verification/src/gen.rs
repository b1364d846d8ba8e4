//! The generator side of the cell files: polylines and towns read from the
//! Natural Earth layers, cut into the cells of a level, and written in the
//! format that `cells::parse` reads.
use vstd::prelude::*;
use vstd::arithmetic::div_mod::{lemma_fundamental_div_mod_converse, lemma_small_mod};
use crate::text::{
    all_digits, chars_between, chars_of, decimal, digit_char, digits_of, first_index, float_text,
    mantissa_text, number_text, int_of, int_text,
    is_digit, is_space, lemma_first_index, lemma_int_text_decimal, lemma_word_len, lines_of,
    push_decimal, strip_cr, string_of, word_len, words_of,
};
use crate::cells::{ring_layer, wrap_of, start_reading, cell_of, empty_cell, layer_name, lemma_read_from_add, lemma_read_lines_from, read_from, step, CellView, Reading, levels, layer_index, places_name, strings_view, columns_of, rows_of, lemma_grid, Key, Level, pair_of, place_of, points_of, polyline_of, Point, PlaceView};

verus! {

/// A pair of a polyline line: `lon,lat` in hundredths of a degree.
pub open spec fn pair_text(p: Point) -> Seq<char> {
    decimal(p.0 as int) + seq![','] + decimal(p.1 as int)
}

/// A polyline line: its pairs separated by single spaces.
pub open spec fn line_text(ps: Seq<Point>) -> Seq<char>
    decreases ps.len(),
{
    if ps.len() == 0 {
        seq![]
    } else if ps.len() == 1 {
        pair_text(ps[0])
    } else {
        line_text(ps.drop_last()) + seq![' '] + pair_text(ps.last())
    }
}

/// The polyline line of a run of points, as the cell files carry it.
pub fn line(points: &[Point]) -> (r: String)
    ensures
        r@ == line_text(points@),
{
    let mut out: Vec<char> = Vec::new();
    let mut i: usize = 0;
    proof {
        assert(points@.take(0) =~= Seq::<Point>::empty());
    }
    while i < points.len()
        invariant
            i <= points@.len(),
            out@ == line_text(points@.take(i as int)),
        decreases points@.len() - i,
    {
        if i > 0 {
            out.push(' ');
        }
        let (lon, lat) = points[i];
        push_decimal(&mut out, lon as i128);
        out.push(',');
        push_decimal(&mut out, lat as i128);
        proof {
            let t = points@.take(i + 1);
            assert(t.drop_last() == points@.take(i as int));
            assert(t.last() == (lon, lat));
            if i == 0 {
                assert(out@ =~= pair_text((lon, lat)));
            } else {
                assert(out@ =~= line_text(points@.take(i as int)) + seq![' '] + pair_text((lon, lat)));
            }
        }
        i += 1;
    }
    proof {
        assert(points@.take(points@.len() as int) == points@);
    }
    string_of(out.as_slice())
}

proof fn lemma_digits_plain(n: nat)
    ensures
        forall|i: int| 0 <= i < digits_of(n).len() ==> is_digit(#[trigger] digits_of(n)[i]),
        digits_of(n).len() > 0,
    decreases n,
{
    if n >= 10 {
        lemma_digits_plain(n / 10);
        let s = digits_of(n);
        assert forall|i: int| 0 <= i < s.len() implies is_digit(#[trigger] s[i]) by {
            if i < s.len() - 1 {
                assert(s[i] == digits_of(n / 10)[i]);
            }
        }
    }
}

/// A decimal is a sign and digits: no space, comma, tab, point or line end.
proof fn lemma_decimal_plain(v: int)
    ensures
        decimal(v).len() > 0,
        forall|i: int|
            0 <= i < decimal(v).len() ==> (#[trigger] decimal(v)[i] == '-' || is_digit(
                decimal(v)[i],
            )),
{
    if v < 0 {
        lemma_digits_plain((-v) as nat);
        let s = decimal(v);
        assert forall|i: int| 0 <= i < s.len() implies (#[trigger] s[i] == '-' || is_digit(
            s[i],
        )) by {
            if i > 0 {
                assert(s[i] == digits_of((-v) as nat)[i - 1]);
            }
        }
    } else {
        lemma_digits_plain(v as nat);
    }
}

proof fn lemma_first_index_absent(s: Seq<char>, t: Seq<char>, c: char)
    requires
        forall|i: int| 0 <= i < s.len() ==> s[i] != c,
    ensures
        first_index(s + t, c) == s.len() + first_index(t, c),
    decreases s.len(),
{
    if s.len() > 0 {
        assert((s + t).drop_first() == s.drop_first() + t);
        lemma_first_index_absent(s.drop_first(), t, c);
    } else {
        assert(s + t == t);
    }
}

proof fn lemma_int_of_decimal(v: i64)
    ensures
        int_of(decimal(v as int)) == Some(v),
{
    lemma_int_text_decimal(v as int);
}

/// Reading a pair back gives the point.
proof fn lemma_pair_round_trip(p: Point)
    ensures
        pair_of(pair_text(p)) == Some(p),
{
    let a = decimal(p.0 as int);
    let b = decimal(p.1 as int);
    lemma_decimal_plain(p.0 as int);
    lemma_decimal_plain(p.1 as int);
    let w = pair_text(p);
    assert(w == a + (seq![','] + b));
    lemma_first_index_absent(a, seq![','] + b, ',');
    assert(first_index(seq![','] + b, ',') == 0);
    assert(w.take(a.len() as int) == a);
    assert(w.skip(a.len() as int + 1) == b);
    lemma_int_of_decimal(p.0);
    lemma_int_of_decimal(p.1);
}

proof fn lemma_word_len_prefix(s: Seq<char>, u: Seq<char>)
    requires
        word_len(s) < s.len(),
    ensures
        word_len(s + u) == word_len(s),
    decreases s.len(),
{
    if s.len() > 0 && !is_space(s[0]) {
        assert((s + u).drop_first() == s.drop_first() + u);
        lemma_word_len_prefix(s.drop_first(), u);
    }
}

proof fn lemma_word_len_whole(s: Seq<char>, u: Seq<char>)
    requires
        word_len(s) == s.len(),
        u.len() > 0,
        is_space(u[0]),
    ensures
        word_len(s + u) == s.len(),
    decreases s.len(),
{
    if s.len() > 0 {
        assert((s + u).drop_first() == s.drop_first() + u);
        lemma_word_len_whole(s.drop_first(), u);
    } else {
        assert(s + u == u);
    }
}

/// A space between two texts separates their words.
pub proof fn lemma_words_concat(s: Seq<char>, c: char, t: Seq<char>)
    requires
        is_space(c),
    ensures
        words_of(s + seq![c] + t) == words_of(s) + words_of(t),
    decreases s.len(),
{
    let u = s + seq![c] + t;
    if s.len() == 0 {
        assert(u.drop_first() == t);
        assert(u[0] == c);
        assert(words_of(u) == words_of(t));
        assert(words_of(s) == Seq::<Seq<char>>::empty());
        assert(words_of(s) + words_of(t) =~= words_of(t));
    } else if is_space(s[0]) {
        assert(u.drop_first() == s.drop_first() + seq![c] + t);
        assert(u[0] == s[0]);
        lemma_words_concat(s.drop_first(), c, t);
        assert(words_of(u) == words_of(u.drop_first()));
        assert(words_of(s) == words_of(s.drop_first()));
    } else {
        assert(u[0] == s[0]);
        lemma_word_len(s);
        let m = word_len(s);
        if m < s.len() {
            assert(u == s + (seq![c] + t));
            lemma_word_len_prefix(s, seq![c] + t);
            assert(u.take(m) == s.take(m));
            assert(u.skip(m) == s.skip(m) + seq![c] + t);
            lemma_words_concat(s.skip(m), c, t);
            assert(words_of(u) == seq![s.take(m)] + words_of(u.skip(m)));
            assert(words_of(s) == seq![s.take(m)] + words_of(s.skip(m)));
            assert(words_of(u) =~= words_of(s) + words_of(t));
        } else {
            assert(u == s + (seq![c] + t));
            lemma_word_len_whole(s, seq![c] + t);
            assert(u.take(m) == s);
            assert(u.skip(m) == seq![c] + t);
            assert((seq![c] + t).drop_first() == t);
            assert(s.skip(m) == Seq::<char>::empty());
            assert(words_of(s.skip(m)) == Seq::<Seq<char>>::empty());
            assert((seq![c] + t)[0] == c);
            assert(words_of(seq![c] + t) == words_of(t));
            assert(words_of(u) == seq![s] + words_of(t));
            assert(s.take(m) == s);
            assert(words_of(s) == seq![s.take(m)] + words_of(s.skip(m)));
            assert(words_of(s) =~= seq![s]);
            assert(words_of(u) =~= words_of(s) + words_of(t));
        }
    }
}

/// A text without spaces is one word.
proof fn lemma_one_word(s: Seq<char>)
    requires
        s.len() > 0,
        forall|i: int| 0 <= i < s.len() ==> !is_space(#[trigger] s[i]),
    ensures
        words_of(s) == seq![s],
{
    lemma_word_len(s);
    if word_len(s) < s.len() {
        assert(is_space(s[word_len(s)]));
    }
    assert(!is_space(s[0]));
    assert(s.take(s.len() as int) == s);
    assert(s.skip(s.len() as int) == Seq::<char>::empty());
    assert(words_of(s.skip(s.len() as int)) == Seq::<Seq<char>>::empty());
    assert(words_of(s) =~= seq![s]);
}

proof fn lemma_pair_one_word(p: Point)
    ensures
        words_of(pair_text(p)) == seq![pair_text(p)],
{
    lemma_decimal_plain(p.0 as int);
    lemma_decimal_plain(p.1 as int);
    let a = decimal(p.0 as int);
    let b = decimal(p.1 as int);
    let w = pair_text(p);
    assert forall|i: int| 0 <= i < w.len() implies !is_space(#[trigger] w[i]) by {
        if i < a.len() {
            assert(w[i] == a[i]);
        } else if i == a.len() {
        } else {
            assert(w[i] == b[i - a.len() - 1]);
        }
    }
    lemma_one_word(w);
}

/// The words of a polyline line are the texts of its pairs.
proof fn lemma_line_words(ps: Seq<Point>)
    ensures
        words_of(line_text(ps)) == ps.map_values(|p: Point| pair_text(p)),
    decreases ps.len(),
{
    if ps.len() == 0 {
        assert(words_of(line_text(ps)) =~= ps.map_values(|p: Point| pair_text(p)));
    } else if ps.len() == 1 {
        lemma_pair_one_word(ps[0]);
        assert(ps.map_values(|p: Point| pair_text(p)) =~= seq![pair_text(ps[0])]);
    } else {
        lemma_line_words(ps.drop_last());
        lemma_words_concat(line_text(ps.drop_last()), ' ', pair_text(ps.last()));
        lemma_pair_one_word(ps.last());
        assert(ps.map_values(|p: Point| pair_text(p)) =~= ps.drop_last().map_values(
            |p: Point| pair_text(p),
        ).push(pair_text(ps.last())));
    }
}

proof fn lemma_points_of_texts(ps: Seq<Point>)
    ensures
        points_of(ps.map_values(|p: Point| pair_text(p))) == Some(ps),
    decreases ps.len(),
{
    let ws = ps.map_values(|p: Point| pair_text(p));
    if ps.len() == 0 {
        assert(ps == Seq::<Point>::empty());
    } else {
        lemma_points_of_texts(ps.drop_last());
        assert(ws.drop_last() =~= ps.drop_last().map_values(|p: Point| pair_text(p)));
        lemma_pair_round_trip(ps.last());
        assert(ps.drop_last().push(ps.last()) =~= ps);
    }
}

/// What the generator writes of a polyline, the client reads back whole.
pub proof fn law_line_round_trip(ps: Seq<Point>)
    ensures
        polyline_of(line_text(ps)) == Some(ps),
{
    lemma_line_words(ps);
    lemma_points_of_texts(ps);
}

/// A town for the cell files: its prominence in tenths, where it stands in
/// hundredths of a degree, and its name.
#[derive(Clone, Debug, PartialEq)]
pub struct Town {
    pub zoom: i64,
    pub lon: i64,
    pub lat: i64,
    pub name: String,
}

/// A number of tenths with one decimal, as `{:.1}` writes it.
pub open spec fn tenths_text(z: int) -> Seq<char> {
    let m = if z < 0 {
        -z
    } else {
        z
    };
    (if z < 0 {
        seq!['-']
    } else {
        seq![]
    }) + digits_of((m / 10) as nat) + seq!['.', digit_char(m % 10)]
}

/// A number of hundredths with two decimals, as `{:.2}` writes it.
pub open spec fn hundredths_text(h: int) -> Seq<char> {
    let m = if h < 0 {
        -h
    } else {
        h
    };
    (if h < 0 {
        seq!['-']
    } else {
        seq![]
    }) + digits_of((m / 100) as nat) + seq!['.', digit_char((m / 10) % 10), digit_char(m % 10)]
}

/// The town line of a cell file: zoom, longitude, latitude and name, tab
/// separated.
pub open spec fn place_text(zoom: int, lon: int, lat: int, name: Seq<char>) -> Seq<char> {
    tenths_text(zoom) + seq!['\t'] + decimal(lon) + seq!['\t'] + decimal(lat) + seq!['\t'] + name
}

/// Appends the digits of `n` and a point and `places` more digits: the
/// magnitude of a fixed point number of `places` decimals.
fn push_fixed(out: &mut Vec<char>, v: i64, places: u32)
    requires
        places == 1 || places == 2,
    ensures
        places == 1 ==> final(out)@ == old(out)@ + tenths_text(v as int),
        places == 2 ==> final(out)@ == old(out)@ + hundredths_text(v as int),
{
    let m: u128 = if v < 0 {
        (-(v as i128)) as u128
    } else {
        v as u128
    };
    if v < 0 {
        out.push('-');
    }
    let ghost start = out@;
    if places == 1 {
        push_digits_of(out, m / 10);
        out.push('.');
        out.push((48u8 + (m % 10) as u8) as char);
        proof {
            assert(out@ =~= old(out)@ + tenths_text(v as int));
        }
    } else {
        push_digits_of(out, m / 100);
        out.push('.');
        out.push((48u8 + ((m / 10) % 10) as u8) as char);
        out.push((48u8 + (m % 10) as u8) as char);
        proof {
            assert(out@ =~= old(out)@ + hundredths_text(v as int));
        }
    }
}

fn push_digits_of(out: &mut Vec<char>, n: u128)
    ensures
        final(out)@ == old(out)@ + digits_of(n as nat),
    decreases n,
{
    if n >= 10 {
        push_digits_of(out, n / 10);
    }
    let c = (48u8 + (n % 10) as u8) as char;
    out.push(c);
    proof {
        if n >= 10 {
            assert(digits_of(n as nat) == digits_of((n / 10) as nat).push(c));
        } else {
            assert(digits_of(n as nat) == seq![c]);
        }
    }
}

fn push_str(out: &mut Vec<char>, s: &str)
    ensures
        final(out)@ == old(out)@ + s@,
{
    let cs = chars_of(s);
    let mut i: usize = 0;
    let ghost start = out@;
    while i < cs.len()
        invariant
            i <= cs@.len(),
            cs@ == s@,
            out@ == start + cs@.take(i as int),
        decreases cs@.len() - i,
    {
        out.push(cs[i]);
        proof {
            assert(cs@.take(i + 1) == cs@.take(i as int).push(cs@[i as int]));
        }
        i += 1;
    }
    proof {
        assert(cs@.take(cs@.len() as int) == cs@);
    }
}

/// The town line of a cell file.
pub fn place_line(t: &Town) -> (r: String)
    ensures
        r@ == place_text(t.zoom as int, t.lon as int, t.lat as int, t.name@),
{
    let mut out: Vec<char> = Vec::new();
    push_fixed(&mut out, t.zoom, 1);
    out.push('\t');
    push_decimal(&mut out, t.lon as i128);
    out.push('\t');
    push_decimal(&mut out, t.lat as i128);
    out.push('\t');
    push_str(&mut out, t.name.as_str());
    proof {
        assert(out@ =~= place_text(t.zoom as int, t.lon as int, t.lat as int, t.name@));
    }
    string_of(out.as_slice())
}

proof fn lemma_no_tab_prefix(a: Seq<char>, rest: Seq<char>)
    requires
        forall|i: int| 0 <= i < a.len() ==> a[i] != '\t',
    ensures
        first_index(a + seq!['\t'] + rest, '\t') == a.len(),
{
    assert(a + seq!['\t'] + rest == a + (seq!['\t'] + rest));
    lemma_first_index_absent(a, seq!['\t'] + rest, '\t');
}

proof fn lemma_tenths_plain(z: int)
    ensures
        forall|i: int| 0 <= i < tenths_text(z).len() ==> #[trigger] tenths_text(z)[i] != '\t',
{
    let m = if z < 0 {
        -z
    } else {
        z
    };
    lemma_digits_plain((m / 10) as nat);
    let s = tenths_text(z);
    let sign: Seq<char> = if z < 0 {
        seq!['-']
    } else {
        seq![]
    };
    let d = digits_of((m / 10) as nat);
    assert forall|i: int| 0 <= i < s.len() implies #[trigger] s[i] != '\t' by {
        if i < sign.len() {
            assert(s[i] == '-');
        } else if i < sign.len() + d.len() {
            assert(s[i] == d[i - sign.len()]);
        } else if i == sign.len() + d.len() {
            assert(s[i] == '.');
        } else {
            assert(s[i] == digit_char(m % 10));
        }
    }
}

/// The text of a number of tenths is a float as `str::parse` reads one.
proof fn lemma_tenths_float(z: int)
    ensures
        float_text(tenths_text(z)),
{
    let m = if z < 0 {
        -z
    } else {
        z
    };
    lemma_digits_plain((m / 10) as nat);
    let s = tenths_text(z);
    let d = digits_of((m / 10) as nat);
    let last = digit_char(m % 10);
    let t = d + seq!['.', last];
    assert(is_digit(last));
    if z < 0 {
        assert(s == seq!['-'] + t);
        assert(s.drop_first() == t);
    } else {
        assert(s == t);
        assert(is_digit(d[0]));
    }
    lemma_first_index(t, 'e');
    lemma_first_index(t, 'E');
    lemma_first_index(t, '.');
    assert forall|i: int| 0 <= i < t.len() implies #[trigger] t[i] != 'e' && t[i] != 'E' by {
        if i < d.len() {
            assert(is_digit(d[i]));
        }
    }
    let p = first_index(t, '.');
    if p < d.len() {
        assert(is_digit(d[p]));
    }
    assert(t[d.len() as int] == '.');
    assert(p == d.len());
    assert(t.take(p) == d);
    assert(t.skip(p + 1) == seq![last]);
    assert(all_digits(t.take(p)));
    assert(all_digits(t.skip(p + 1)));
    assert(mantissa_text(t));
    assert(number_text(t));
}

/// What the generator writes of a town, the client reads back: the zoom as
/// the text of its tenths, the position and the whole name, tabs and all.
pub proof fn law_place_round_trip(zoom: int, lon: i64, lat: i64, name: Seq<char>)
    ensures
        place_of(place_text(zoom, lon as int, lat as int, name)) == Some(
            PlaceView { zoom: tenths_text(zoom), lon, lat, name },
        ),
{
    let z = tenths_text(zoom);
    let a = decimal(lon as int);
    let b = decimal(lat as int);
    let line = place_text(zoom, lon as int, lat as int, name);
    lemma_tenths_plain(zoom);
    lemma_tenths_float(zoom);
    lemma_decimal_plain(lon as int);
    lemma_decimal_plain(lat as int);
    assert forall|i: int| 0 <= i < a.len() implies a[i] != '\t' by {
        assert(a[i] == '-' || is_digit(a[i]));
    }
    assert forall|i: int| 0 <= i < b.len() implies b[i] != '\t' by {
        assert(b[i] == '-' || is_digit(b[i]));
    }
    let r1 = a + seq!['\t'] + b + seq!['\t'] + name;
    let r2 = b + seq!['\t'] + name;
    assert(line == z + seq!['\t'] + r1);
    lemma_no_tab_prefix(z, r1);
    let t0 = z.len() as int;
    assert(line.skip(t0 + 1) == r1);
    assert(r1 == a + seq!['\t'] + (b + seq!['\t'] + name));
    lemma_no_tab_prefix(a, b + seq!['\t'] + name);
    let t1 = t0 + 1 + a.len();
    assert(line.skip(t1 + 1) == r2);
    lemma_no_tab_prefix(b, name);
    let t2 = t1 + 1 + b.len();
    assert(line.take(t0) == z);
    assert(line.subrange(t0 + 1, t1) == a);
    assert(line.subrange(t1 + 1, t2) == b);
    assert(line.skip(t2 + 1) == name);
    lemma_int_of_decimal(lon);
    lemma_int_of_decimal(lat);
}

/// A text of lines, each followed by a newline; none at all for no lines.
pub open spec fn file_text_of(ls: Seq<Seq<char>>) -> Seq<char>
    decreases ls.len(),
{
    if ls.len() == 0 {
        seq![]
    } else {
        ls[0] + seq!['\n'] + file_text_of(ls.drop_first())
    }
}

/// The text of a file of lines: the lines joined by newlines and ended by
/// one, or nothing when there are none.
pub fn file_text(lines: &[String]) -> (r: String)
    ensures
        r@ == file_text_of(lines@.map_values(|l: String| l@)),
{
    let ghost ls = lines@.map_values(|l: String| l@);
    let mut out: Vec<char> = Vec::new();
    let mut i: usize = 0;
    proof {
        assert(ls.skip(0) == ls);
    }
    while i < lines.len()
        invariant
            i <= lines@.len(),
            ls == lines@.map_values(|l: String| l@),
            out@ + file_text_of(ls.skip(i as int)) == file_text_of(ls),
        decreases lines@.len() - i,
    {
        let ghost before = out@;
        push_str(&mut out, lines[i].as_str());
        out.push('\n');
        proof {
            assert(ls.skip(i as int)[0] == lines@[i as int]@);
            assert(ls.skip(i as int).drop_first() == ls.skip(i + 1));
            assert(out@ + file_text_of(ls.skip(i + 1)) =~= before + file_text_of(ls.skip(i as int)));
        }
        i += 1;
    }
    proof {
        assert(ls.skip(lines@.len() as int) == Seq::<Seq<char>>::empty());
        assert(out@ + file_text_of(ls.skip(lines@.len() as int)) == out@);
    }
    string_of(out.as_slice())
}

/// A line a file can carry whole: no newline in it, and no carriage return
/// at its end, which reading would take for half of a line ending.
pub open spec fn plain_line(l: Seq<char>) -> bool {
    (forall|i: int| 0 <= i < l.len() ==> l[i] != '\n') && !(l.len() > 0 && l.last() == '\r')
}

/// The lines a file is written with are the lines it is read as.
pub proof fn law_file_lines(ls: Seq<Seq<char>>)
    requires
        forall|i: int| 0 <= i < ls.len() ==> plain_line(#[trigger] ls[i]),
    ensures
        lines_of(file_text_of(ls)) == ls,
    decreases ls.len(),
{
    if ls.len() > 0 {
        let l = ls[0];
        let rest = file_text_of(ls.drop_first());
        assert(plain_line(ls[0]));
        assert forall|i: int| 0 <= i < ls.drop_first().len() implies plain_line(
            #[trigger] ls.drop_first()[i],
        ) by {
            assert(ls.drop_first()[i] == ls[i + 1]);
        }
        law_file_lines(ls.drop_first());
        let s = file_text_of(ls);
        assert(s == l + (seq!['\n'] + rest));
        lemma_first_index_absent(l, seq!['\n'] + rest, '\n');
        assert(first_index(seq!['\n'] + rest, '\n') == 0);
        assert(s.take(l.len() as int) == l);
        assert(s.skip(l.len() as int + 1) == rest);
        assert(strip_cr(l) == l);
        assert(lines_of(s) =~= ls);
    } else {
        assert(lines_of(file_text_of(ls)) =~= ls);
    }
}

/// Consecutive repeats collapsed into one.
pub open spec fn dedup_of(s: Seq<Point>) -> Seq<Point>
    decreases s.len(),
{
    if s.len() == 0 {
        seq![]
    } else {
        let d = dedup_of(s.drop_last());
        if d.len() > 0 && d.last() == s.last() {
            d
        } else {
            d.push(s.last())
        }
    }
}

/// Consecutive repeats collapse into one.
pub fn dedup(points: Vec<Point>) -> (r: Vec<Point>)
    ensures
        r@ == dedup_of(points@),
{
    let mut out: Vec<Point> = Vec::new();
    let mut i: usize = 0;
    proof {
        assert(points@.take(0) =~= Seq::<Point>::empty());
    }
    while i < points.len()
        invariant
            i <= points@.len(),
            out@ == dedup_of(points@.take(i as int)),
        decreases points@.len() - i,
    {
        let p = points[i];
        proof {
            assert(points@.take(i + 1).drop_last() == points@.take(i as int));
            assert(points@.take(i + 1).last() == p);
        }
        if out.len() == 0 || out[out.len() - 1].0 != p.0 || out[out.len() - 1].1 != p.1 {
            out.push(p);
        }
        i += 1;
    }
    proof {
        assert(points@.take(points@.len() as int) == points@);
    }
    out
}

/// No point follows an equal one, and the first and last points stay.
pub proof fn law_dedup(s: Seq<Point>)
    ensures
        forall|i: int, j: int|
            0 <= i && j == i + 1 && j < dedup_of(s).len() ==> #[trigger] dedup_of(s)[i]
                != #[trigger] dedup_of(s)[j],
        s.len() > 0 ==> dedup_of(s).len() > 0 && dedup_of(s).last() == s.last() && dedup_of(
            s,
        )[0] == s[0],
        dedup_of(s).len() <= s.len(),
    decreases s.len(),
{
    if s.len() > 0 {
        law_dedup(s.drop_last());
        let d = dedup_of(s.drop_last());
        if s.len() > 1 {
            assert(s.drop_last()[0] == s[0]);
        }
        if !(d.len() > 0 && d.last() == s.last()) {
            let e = d.push(s.last());
            assert forall|i: int, j: int|
                0 <= i && j == i + 1 && j < e.len() implies #[trigger] e[i] != #[trigger] e[j] by {
                if j < d.len() {
                    assert(e[i] == d[i] && e[j] == d[j]);
                }
            }
        }
    }
}

/// The coordinates of a geojson geometry as values: a number already put on
/// the grid of the reading (whole steps of `1 / steps` degree), a list, or
/// anything else.
#[derive(Debug)]
pub enum Coordinates {
    Number(i64),
    List(Vec<Coordinates>),
    Other,
}

/// A geometry: its `type` where that is a string, and its coordinates.
#[derive(Debug)]
pub struct Geometry {
    pub kind: Option<String>,
    pub coordinates: Coordinates,
}

/// A geojson feature as the reading sees it: the two classification
/// properties where they are strings, and its geometry unless that is null
/// or missing.
#[derive(Debug)]
pub struct Feature {
    pub featurecla: Option<String>,
    pub featurecla_upper: Option<String>,
    pub geometry: Option<Geometry>,
}

/// Which features of a layer stay.
#[derive(Clone, Copy, Debug, PartialEq)]
pub enum Keep {
    /// Every feature.
    All,
    /// Rivers alone: lake centerlines cut through lakes that are drawn.
    River,
    /// State lines alone: regional, statistical and indicator lines stay
    /// out, the last run through the sea.
    State,
}

/// A Natural Earth layer: its file, whether its shapes are rings, and the
/// features of it that stay.
#[derive(Clone, Copy, Debug, PartialEq)]
pub struct Source {
    pub file: &'static str,
    pub ring: bool,
    pub keep: Keep,
}

/// Why reading the layers stops.
#[derive(Clone, Debug, PartialEq)]
pub enum GenError {
    /// A geometry of a type the reading does not know, with its type.
    Geometry(&'static str, Option<String>),
    /// A point that is not two numbers.
    Point(&'static str),
    /// A layer that yields nothing, its format or its properties changed.
    Empty(&'static str),
    /// A place without zoom, name or coordinates.
    Place,
    /// A place with coordinates that are not numbers.
    PlaceNumbers,
    /// A level without layers.
    Level(&'static str),
}

pub enum GenErrorView {
    Geometry(Seq<char>, Option<Seq<char>>),
    Point(Seq<char>),
    Empty(Seq<char>),
    Place,
    PlaceNumbers,
    Level(Seq<char>),
}

pub open spec fn opt_view(s: Option<String>) -> Option<Seq<char>> {
    match s {
        Some(t) => Some(t@),
        None => None,
    }
}

impl View for GenError {
    type V = GenErrorView;

    open spec fn view(&self) -> GenErrorView {
        match self {
            GenError::Geometry(f, k) => GenErrorView::Geometry(f@, opt_view(*k)),
            GenError::Point(f) => GenErrorView::Point(f@),
            GenError::Empty(f) => GenErrorView::Empty(f@),
            GenError::Place => GenErrorView::Place,
            GenError::PlaceNumbers => GenErrorView::PlaceNumbers,
            GenError::Level(n) => GenErrorView::Level(n@),
        }
    }
}

/// Whether a feature stays in a layer.
pub open spec fn keeps(keep: Keep, f: Feature) -> bool {
    match keep {
        Keep::All => true,
        Keep::River => opt_view(f.featurecla) == Some("River"@),
        Keep::State => opt_view(f.featurecla_upper) == Some("Admin-1 boundary"@),
    }
}

fn same_text(a: &str, b: &str) -> (r: bool)
    ensures
        r == (a@ == b@),
{
    let x = chars_of(a);
    let y = chars_of(b);
    if x.len() != y.len() {
        proof {
            assert(a@.len() != b@.len());
        }
        return false;
    }
    let mut i: usize = 0;
    while i < x.len()
        invariant
            i <= x@.len(),
            x@.len() == y@.len(),
            x@ == a@,
            y@ == b@,
            forall|j: int| 0 <= j < i ==> x@[j] == y@[j],
        decreases x@.len() - i,
    {
        if x[i] != y[i] {
            proof {
                assert(a@[i as int] != b@[i as int]);
            }
            return false;
        }
        i += 1;
    }
    proof {
        assert(x@ =~= y@);
    }
    true
}

fn is_text(s: &Option<String>, t: &str) -> (r: bool)
    ensures
        r == (opt_view(*s) == Some(t@)),
{
    match s {
        Some(v) => same_text(v.as_str(), t),
        None => false,
    }
}

/// Every feature stays.
pub fn all(f: &Feature) -> (r: bool)
    ensures
        r == keeps(Keep::All, *f),
{
    true
}

/// Lake centerlines cut through lakes that are drawn, rivers alone stay.
pub fn river(f: &Feature) -> (r: bool)
    ensures
        r == keeps(Keep::River, *f),
{
    is_text(&f.featurecla, "River")
}

/// Regional, statistical and indicator lines stay out, the last run through
/// the sea.
pub fn state(f: &Feature) -> (r: bool)
    ensures
        r == keeps(Keep::State, *f),
{
    is_text(&f.featurecla_upper, "Admin-1 boundary")
}

fn kept(keep: Keep, f: &Feature) -> (r: bool)
    ensures
        r == keeps(keep, *f),
{
    match keep {
        Keep::All => all(f),
        Keep::River => river(f),
        Keep::State => state(f),
    }
}

/// The items of a list, none for anything else.
pub open spec fn children(c: Coordinates) -> Seq<Coordinates> {
    match c {
        Coordinates::List(v) => v@,
        _ => seq![],
    }
}

/// The number at position `i` of a list.
pub open spec fn number_at(c: Coordinates, i: int) -> Option<i64> {
    match c {
        Coordinates::List(v) => if 0 <= i < v@.len() {
            match v@[i] {
                Coordinates::Number(n) => Some(n),
                _ => None,
            }
        } else {
            None
        },
        _ => None,
    }
}

/// A grid value in hundredths of a degree, `scale` hundredths a step,
/// saturating at the ends of `i64` as a float converted to an integer does.
pub open spec fn scaled(n: i64, scale: int) -> i64 {
    if n * scale > i64::MAX {
        i64::MAX
    } else if n * scale < i64::MIN {
        i64::MIN
    } else {
        (n * scale) as i64
    }
}

/// A point of a part: the first two items, both numbers.
pub open spec fn point_at(c: Coordinates, scale: int) -> Option<Point> {
    match (number_at(c, 0), number_at(c, 1)) {
        (Some(lon), Some(lat)) => Some((scaled(lon, scale), scaled(lat, scale))),
        _ => None,
    }
}

/// The points of a part, `None` when one of them is not two numbers.
pub open spec fn points_in(ps: Seq<Coordinates>, scale: int) -> Option<Seq<Point>>
    decreases ps.len(),
{
    if ps.len() == 0 {
        Some(seq![])
    } else {
        match (points_in(ps.drop_last(), scale), point_at(ps.last(), scale)) {
            (Some(a), Some(p)) => Some(a.push(p)),
            _ => None,
        }
    }
}

/// The polylines read so far, or why the reading stopped.
pub type Reads = Result<Seq<Seq<Point>>, GenErrorView>;

/// One part read: its points, freed of repeats.
pub open spec fn add_part(acc: Reads, part: Coordinates, scale: int, file: Seq<char>) -> Reads {
    match acc {
        Err(e) => Err(e),
        Ok(ls) => match points_in(children(part), scale) {
            Some(ps) => Ok(ls.push(dedup_of(ps))),
            None => Err(GenErrorView::Point(file)),
        },
    }
}

pub open spec fn add_parts(acc: Reads, parts: Seq<Coordinates>, scale: int, file: Seq<char>) -> Reads
    decreases parts.len(),
{
    if parts.len() == 0 {
        acc
    } else {
        add_part(add_parts(acc, parts.drop_last(), scale, file), parts.last(), scale, file)
    }
}

pub open spec fn add_polygons(
    acc: Reads,
    polygons: Seq<Coordinates>,
    scale: int,
    file: Seq<char>,
) -> Reads
    decreases polygons.len(),
{
    if polygons.len() == 0 {
        acc
    } else {
        add_parts(
            add_polygons(acc, polygons.drop_last(), scale, file),
            children(polygons.last()),
            scale,
            file,
        )
    }
}

pub open spec fn polygon_name() -> Seq<char> {
    seq!['P', 'o', 'l', 'y', 'g', 'o', 'n']
}

pub open spec fn multi_line_name() -> Seq<char> {
    seq!['M', 'u', 'l', 't', 'i', 'L', 'i', 'n', 'e', 'S', 't', 'r', 'i', 'n', 'g']
}

pub open spec fn multi_polygon_name() -> Seq<char> {
    seq!['M', 'u', 'l', 't', 'i', 'P', 'o', 'l', 'y', 'g', 'o', 'n']
}

pub open spec fn line_string_name() -> Seq<char> {
    seq!['L', 'i', 'n', 'e', 'S', 't', 'r', 'i', 'n', 'g']
}

/// One feature read: skipped unless it stays and has a geometry; a polygon
/// and a multi line give their lists, a multi polygon the lists of its
/// polygons, a line string itself; any other type stops the reading.
pub open spec fn add_feature(acc: Reads, f: Feature, source: Source, scale: int) -> Reads {
    match acc {
        Err(e) => Err(e),
        Ok(_) => if !keeps(source.keep, f) {
            acc
        } else {
            match f.geometry {
                None => acc,
                Some(g) => {
                    let kind = opt_view(g.kind);
                    if kind == Some(polygon_name()) || kind == Some(multi_line_name()) {
                        add_parts(acc, children(g.coordinates), scale, source.file@)
                    } else if kind == Some(multi_polygon_name()) {
                        add_polygons(acc, children(g.coordinates), scale, source.file@)
                    } else if kind == Some(line_string_name()) {
                        add_part(acc, g.coordinates, scale, source.file@)
                    } else {
                        Err(GenErrorView::Geometry(source.file@, kind))
                    }
                },
            }
        },
    }
}

pub open spec fn add_features(acc: Reads, fs: Seq<Feature>, source: Source, scale: int) -> Reads
    decreases fs.len(),
{
    if fs.len() == 0 {
        acc
    } else {
        add_feature(add_features(acc, fs.drop_last(), source, scale), fs.last(), source, scale)
    }
}

/// Every ring or line of a layer, freed of repeats, in file order; a layer
/// that yields nothing stops the reading.
pub open spec fn polylines_of(fs: Seq<Feature>, source: Source, scale: int) -> Reads {
    match add_features(Ok(seq![]), fs, source, scale) {
        Ok(ls) => if ls.len() == 0 {
            Err(GenErrorView::Empty(source.file@))
        } else {
            Ok(ls)
        },
        Err(e) => Err(e),
    }
}

proof fn lemma_parts_err(acc: Reads, parts: Seq<Coordinates>, scale: int, file: Seq<char>, k: int)
    requires
        0 <= k <= parts.len(),
        add_parts(acc, parts.take(k), scale, file) is Err,
    ensures
        add_parts(acc, parts, scale, file) == add_parts(acc, parts.take(k), scale, file),
    decreases parts.len() - k,
{
    if k < parts.len() {
        assert(parts.take(k + 1).drop_last() == parts.take(k));
        lemma_parts_err(acc, parts, scale, file, k + 1);
    } else {
        assert(parts.take(k) == parts);
    }
}

proof fn lemma_parts_from_err(e: GenErrorView, parts: Seq<Coordinates>, scale: int, file: Seq<char>)
    ensures
        add_parts(Err(e), parts, scale, file) == Err::<Seq<Seq<Point>>, GenErrorView>(e),
    decreases parts.len(),
{
    if parts.len() > 0 {
        lemma_parts_from_err(e, parts.drop_last(), scale, file);
    }
}

proof fn lemma_polygons_err(
    acc: Reads,
    polygons: Seq<Coordinates>,
    scale: int,
    file: Seq<char>,
    k: int,
)
    requires
        0 <= k <= polygons.len(),
        add_polygons(acc, polygons.take(k), scale, file) is Err,
    ensures
        add_polygons(acc, polygons, scale, file) == add_polygons(
            acc,
            polygons.take(k),
            scale,
            file,
        ),
    decreases polygons.len() - k,
{
    if k < polygons.len() {
        assert(polygons.take(k + 1).drop_last() == polygons.take(k));
        let prev = add_polygons(acc, polygons.take(k), scale, file);
        lemma_parts_from_err(prev->Err_0, children(polygons[k]), scale, file);
        lemma_polygons_err(acc, polygons, scale, file, k + 1);
    } else {
        assert(polygons.take(k) == polygons);
    }
}

proof fn lemma_features_err(acc: Reads, fs: Seq<Feature>, source: Source, scale: int, k: int)
    requires
        0 <= k <= fs.len(),
        add_features(acc, fs.take(k), source, scale) is Err,
    ensures
        add_features(acc, fs, source, scale) == add_features(acc, fs.take(k), source, scale),
    decreases fs.len() - k,
{
    if k < fs.len() {
        assert(fs.take(k + 1).drop_last() == fs.take(k));
        lemma_features_err(acc, fs, source, scale, k + 1);
    } else {
        assert(fs.take(k) == fs);
    }
}

/// No point of a run repeats the one before it.
pub open spec fn repeat_free(ps: Seq<Point>) -> bool {
    forall|i: int, j: int| 0 <= i && j == i + 1 && j < ps.len() ==> #[trigger] ps[i] != #[trigger] ps[j]
}

/// Every polyline read so far is free of repeats.
pub open spec fn reads_free(acc: Reads) -> bool {
    acc matches Ok(ls) ==> forall|k: int| 0 <= k < ls.len() ==> repeat_free(#[trigger] ls[k])
}

proof fn lemma_part_free(acc: Reads, part: Coordinates, scale: int, file: Seq<char>)
    requires
        reads_free(acc),
    ensures
        reads_free(add_part(acc, part, scale, file)),
{
    if let Ok(ls) = acc {
        if let Some(ps) = points_in(children(part), scale) {
            law_dedup(ps);
            let n = ls.push(dedup_of(ps));
            assert forall|k: int| 0 <= k < n.len() implies repeat_free(#[trigger] n[k]) by {
                if k < ls.len() {
                    assert(n[k] == ls[k]);
                }
            }
        }
    }
}

proof fn lemma_parts_free(acc: Reads, parts: Seq<Coordinates>, scale: int, file: Seq<char>)
    requires
        reads_free(acc),
    ensures
        reads_free(add_parts(acc, parts, scale, file)),
    decreases parts.len(),
{
    if parts.len() > 0 {
        lemma_parts_free(acc, parts.drop_last(), scale, file);
        lemma_part_free(add_parts(acc, parts.drop_last(), scale, file), parts.last(), scale, file);
    }
}

proof fn lemma_polygons_free(acc: Reads, polygons: Seq<Coordinates>, scale: int, file: Seq<char>)
    requires
        reads_free(acc),
    ensures
        reads_free(add_polygons(acc, polygons, scale, file)),
    decreases polygons.len(),
{
    if polygons.len() > 0 {
        lemma_polygons_free(acc, polygons.drop_last(), scale, file);
        lemma_parts_free(
            add_polygons(acc, polygons.drop_last(), scale, file),
            children(polygons.last()),
            scale,
            file,
        );
    }
}

proof fn lemma_features_free(acc: Reads, fs: Seq<Feature>, source: Source, scale: int)
    requires
        reads_free(acc),
    ensures
        reads_free(add_features(acc, fs, source, scale)),
    decreases fs.len(),
{
    if fs.len() > 0 {
        lemma_features_free(acc, fs.drop_last(), source, scale);
        let a = add_features(acc, fs.drop_last(), source, scale);
        let f = fs.last();
        if let Some(g) = f.geometry {
            lemma_parts_free(a, children(g.coordinates), scale, source.file@);
            lemma_polygons_free(a, children(g.coordinates), scale, source.file@);
            lemma_part_free(a, g.coordinates, scale, source.file@);
        }
    }
}

/// Every ring or line of a layer comes freed of repeats: no point of a
/// polyline read repeats the one before it.
pub proof fn law_polylines_free_of_repeats(fs: Seq<Feature>, source: Source, scale: int)
    ensures
        reads_free(polylines_of(fs, source, scale)),
{
    lemma_features_free(Ok(seq![]), fs, source, scale);
}

fn number_at_exec(c: &Coordinates, i: usize) -> (r: Option<i64>)
    ensures
        r == number_at(*c, i as int),
{
    match c {
        Coordinates::List(v) => if i < v.len() {
            match &v[i] {
                Coordinates::Number(n) => Some(*n),
                _ => None,
            }
        } else {
            None
        },
        _ => None,
    }
}

fn scale_exec(n: i64, scale: i64) -> (r: i64)
    requires
        1 <= scale <= 100,
    ensures
        r == scaled(n, scale as int),
{
    proof {
        if n < 0 {
            assert(n * scale < 0) by (nonlinear_arith)
                requires
                    n < 0,
                    scale >= 1,
            ;
        } else {
            assert(n * scale >= 0) by (nonlinear_arith)
                requires
                    n >= 0,
                    scale >= 1,
            ;
        }
    }
    match n.checked_mul(scale) {
        Some(v) => v,
        None => if n < 0 {
            i64::MIN
        } else {
            i64::MAX
        },
    }
}

/// The points of a part, freed of repeats, `None` when one is not two
/// numbers.
fn part_points(part: &Coordinates, scale: i64) -> (r: Option<Vec<Point>>)
    requires
        1 <= scale <= 100,
    ensures
        match r {
            Some(ps) => points_in(children(*part), scale as int) matches Some(q) && ps@ == dedup_of(q),
            None => points_in(children(*part), scale as int) is None,
        },
{
    let mut out: Vec<Point> = Vec::new();
    match part {
        Coordinates::List(items) => {
            let ghost cs = items@;
            let mut i: usize = 0;
            proof {
                assert(cs.take(0) =~= Seq::<Coordinates>::empty());
            }
            while i < items.len()
                invariant
                    i <= cs.len(),
                    cs == items@,
                    children(*part) == cs,
                    1 <= scale <= 100,
                    points_in(cs.take(i as int), scale as int) == Some(out@),
                decreases cs.len() - i,
            {
                let lon = number_at_exec(&items[i], 0);
                let lat = number_at_exec(&items[i], 1);
                proof {
                    assert(cs.take(i + 1).drop_last() == cs.take(i as int));
                    assert(cs.take(i + 1).last() == cs[i as int]);
                }
                match (lon, lat) {
                    (Some(lon), Some(lat)) => {
                        out.push((scale_exec(lon, scale), scale_exec(lat, scale)));
                    },
                    _ => {
                        proof {
                            lemma_points_in_none(cs, scale as int, i + 1);
                        }
                        return None;
                    },
                }
                i += 1;
            }
            proof {
                assert(cs.take(cs.len() as int) == cs);
            }
        },
        _ => {},
    }
    Some(dedup(out))
}

proof fn lemma_points_in_none(cs: Seq<Coordinates>, scale: int, k: int)
    requires
        0 <= k <= cs.len(),
        points_in(cs.take(k), scale) is None,
    ensures
        points_in(cs, scale) is None,
    decreases cs.len() - k,
{
    if k < cs.len() {
        assert(cs.take(k + 1).drop_last() == cs.take(k));
        lemma_points_in_none(cs, scale, k + 1);
    } else {
        assert(cs.take(k) == cs);
    }
}

pub open spec fn lines_view(v: Seq<Vec<Point>>) -> Seq<Seq<Point>> {
    v.map_values(|l: Vec<Point>| l@)
}

/// Reads the parts of a list onto `out`, stopping at a point that is not
/// two numbers.
fn read_parts(out: &mut Vec<Vec<Point>>, parts: &Vec<Coordinates>, scale: i64, file: &'static str) -> (r: Result<(), GenError>)
    requires
        1 <= scale <= 100,
    ensures
        match r {
            Ok(()) => add_parts(Ok(lines_view(old(out)@)), parts@, scale as int, file@) == Ok::<Seq<Seq<Point>>, GenErrorView>(lines_view(final(out)@)),
            Err(e) => add_parts(Ok(lines_view(old(out)@)), parts@, scale as int, file@) == Err::<Seq<Seq<Point>>, GenErrorView>(e@),
        },
{
    let ghost start = lines_view(out@);
    let mut j: usize = 0;
    proof {
        assert(parts@.take(0) =~= Seq::<Coordinates>::empty());
    }
    while j < parts.len()
        invariant
            j <= parts@.len(),
            1 <= scale <= 100,
            start == lines_view(old(out)@),
            add_parts(Ok(start), parts@.take(j as int), scale as int, file@) == Ok::<Seq<Seq<Point>>, GenErrorView>(lines_view(out@)),
        decreases parts@.len() - j,
    {
        proof {
            assert(parts@.take(j + 1).drop_last() == parts@.take(j as int));
            assert(parts@.take(j + 1).last() == parts@[j as int]);
        }
        match part_points(&parts[j], scale) {
            Some(ps) => {
                let ghost before = lines_view(out@);
                let ghost pv = ps@;
                out.push(ps);
                proof {
                    assert(lines_view(out@) =~= before.push(pv));
                }
            },
            None => {
                proof {
                    assert(add_parts(Ok(start), parts@.take(j + 1), scale as int, file@) == Err::<Seq<Seq<Point>>, GenErrorView>(GenErrorView::Point(file@)));
                    lemma_parts_err(Ok(start), parts@, scale as int, file@, j + 1);
                }
                return Err(GenError::Point(file));
            },
        }
        j += 1;
    }
    proof {
        assert(parts@.take(parts@.len() as int) == parts@);
    }
    Ok(())
}

/// Reads the parts of each polygon of a list onto `out`, stopping at a
/// point that is not two numbers.
fn read_polygons(out: &mut Vec<Vec<Point>>, polys: &Vec<Coordinates>, scale: i64, file: &'static str) -> (r: Result<(), GenError>)
    requires
        1 <= scale <= 100,
    ensures
        match r {
            Ok(()) => add_polygons(Ok(lines_view(old(out)@)), polys@, scale as int, file@) == Ok::<Seq<Seq<Point>>, GenErrorView>(lines_view(final(out)@)),
            Err(e) => add_polygons(Ok(lines_view(old(out)@)), polys@, scale as int, file@) == Err::<Seq<Seq<Point>>, GenErrorView>(e@),
        },
{
    let ghost start = lines_view(out@);
    let ghost ps = polys@;
    let mut k: usize = 0;
    proof {
        assert(ps.take(0) =~= Seq::<Coordinates>::empty());
    }
    while k < polys.len()
        invariant
            k <= ps.len(),
            ps == polys@,
            1 <= scale <= 100,
            start == lines_view(old(out)@),
            add_polygons(Ok(start), ps.take(k as int), scale as int, file@) == Ok::<Seq<Seq<Point>>, GenErrorView>(lines_view(out@)),
        decreases ps.len() - k,
    {
        proof {
            assert(ps.take(k + 1).drop_last() == ps.take(k as int));
            assert(ps.take(k + 1).last() == ps[k as int]);
        }
        match &polys[k] {
            Coordinates::List(parts) => {
                let res = read_parts(out, parts, scale, file);
                if let Err(e) = res {
                    proof {
                        lemma_polygons_err(Ok(start), ps, scale as int, file@, k + 1);
                    }
                    return Err(e);
                }
            },
            _ => {},
        }
        k += 1;
    }
    proof {
        assert(ps.take(ps.len() as int) == ps);
    }
    Ok(())
}

fn kind_is(kind: &Option<String>, word: &[char]) -> (r: bool)
    ensures
        r == (opt_view(*kind) == Some(word@)),
{
    match kind {
        Some(k) => {
            let cs = chars_of(k.as_str());
            if cs.len() != word.len() {
                proof {
                    assert(k@.len() != word@.len());
                }
                return false;
            }
            let mut i: usize = 0;
            while i < cs.len()
                invariant
                    i <= cs@.len(),
                    cs@.len() == word@.len(),
                    cs@ == k@,
                    opt_view(*kind) == Some(k@),
                    forall|j: int| 0 <= j < i ==> cs@[j] == word@[j],
                decreases cs@.len() - i,
            {
                if cs[i] != word[i] {
                    proof {
                        assert(k@[i as int] != word@[i as int]);
                    }
                    return false;
                }
                i += 1;
            }
            proof {
                assert(cs@ =~= word@);
            }
            true
        },
        None => false,
    }
}

fn copy_kind(kind: &Option<String>) -> (r: Option<String>)
    ensures
        opt_view(r) == opt_view(*kind),
{
    match kind {
        Some(k) => Some(k.clone()),
        None => None,
    }
}

/// Every ring or line of a layer, on the grid of `steps` to a degree and
/// freed of repeats, in file order. A geometry of a type this does not know
/// or a layer that keep empties stops the reading; a feature without
/// geometry carries nothing to draw and is passed over.
pub fn polylines(features: &Vec<Feature>, source: &Source, steps: u32) -> (r: Result<Vec<Vec<Point>>, GenError>)
    requires
        1 <= steps <= 100,
        100u32 % steps == 0,
    ensures
        match r {
            Ok(ls) => polylines_of(features@, *source, 100int / (steps as int)) == Ok::<Seq<Seq<Point>>, GenErrorView>(lines_view(ls@)),
            Err(e) => polylines_of(features@, *source, 100int / (steps as int)) == Err::<Seq<Seq<Point>>, GenErrorView>(e@),
        },
{
    let scale = (100 / steps) as i64;
    proof {
        assert(1 <= 100u32 / steps <= 100) by (nonlinear_arith)
            requires
                1 <= steps <= 100,
        ;
    }
    let file = source.file;
    let polygon = ['P', 'o', 'l', 'y', 'g', 'o', 'n'];
    let multi_line = ['M', 'u', 'l', 't', 'i', 'L', 'i', 'n', 'e', 'S', 't', 'r', 'i', 'n', 'g'];
    let multi_polygon = ['M', 'u', 'l', 't', 'i', 'P', 'o', 'l', 'y', 'g', 'o', 'n'];
    let line_string = ['L', 'i', 'n', 'e', 'S', 't', 'r', 'i', 'n', 'g'];
    proof {
        assert(polygon@ == polygon_name());
        assert(multi_line@ == multi_line_name());
        assert(multi_polygon@ == multi_polygon_name());
        assert(line_string@ == line_string_name());
    }
    let mut out: Vec<Vec<Point>> = Vec::new();
    let ghost fs = features@;
    let ghost sc = scale as int;
    let mut i: usize = 0;
    proof {
        assert(fs.take(0) =~= Seq::<Feature>::empty());
        assert(lines_view(out@) =~= Seq::<Seq<Point>>::empty());
    }
    while i < features.len()
        invariant
            i <= fs.len(),
            fs == features@,
            sc == scale,
            sc == 100int / (steps as int),
            1 <= scale <= 100,
            file == source.file,
            polygon@ == polygon_name(),
            multi_line@ == multi_line_name(),
            multi_polygon@ == multi_polygon_name(),
            line_string@ == line_string_name(),
            add_features(Ok(seq![]), fs.take(i as int), *source, sc) == Ok::<Seq<Seq<Point>>, GenErrorView>(lines_view(out@)),
        decreases fs.len() - i,
    {
        let f = &features[i];
        let ghost acc: Reads = Ok(lines_view(out@));
        proof {
            assert(fs.take(i + 1).drop_last() == fs.take(i as int));
            assert(fs.take(i + 1).last() == *f);
        }
        if kept(source.keep, f) {
            match &f.geometry {
                None => {},
                Some(g) => {
                    let kind = &g.kind;
                    if kind_is(kind, &polygon) || kind_is(kind, &multi_line) {
                        match &g.coordinates {
                            Coordinates::List(parts) => {
                                let res = read_parts(&mut out, parts, scale, file);
                                if let Err(e) = res {
                                    proof {
                                        lemma_features_err(Ok(seq![]), fs, *source, sc, i + 1);
                                    }
                                    return Err(e);
                                }
                            },
                            _ => {
                                proof {
                                    assert(add_parts(acc, children(g.coordinates), sc, file@) == acc);
                                }
                            },
                        }
                    } else if kind_is(kind, &multi_polygon) {
                        match &g.coordinates {
                            Coordinates::List(polys) => {
                                let res = read_polygons(&mut out, polys, scale, file);
                                if let Err(e) = res {
                                    proof {
                                        lemma_features_err(Ok(seq![]), fs, *source, sc, i + 1);
                                    }
                                    return Err(e);
                                }
                            },
                            _ => {},
                        }
                    } else if kind_is(kind, &line_string) {
                        match part_points(&g.coordinates, scale) {
                            Some(pts) => {
                                let ghost before = lines_view(out@);
                                let ghost pv = pts@;
                                out.push(pts);
                                proof {
                                    assert(lines_view(out@) =~= before.push(pv));
                                }
                            },
                            None => {
                                proof {
                                    lemma_features_err(Ok(seq![]), fs, *source, sc, i + 1);
                                }
                                return Err(GenError::Point(file));
                            },
                        }
                    } else {
                        proof {
                            lemma_features_err(Ok(seq![]), fs, *source, sc, i + 1);
                        }
                        return Err(GenError::Geometry(file, copy_kind(kind)));
                    }
                },
            }
        }
        i += 1;
    }
    proof {
        assert(fs.take(fs.len() as int) == fs);
    }
    if out.len() == 0 {
        return Err(GenError::Empty(file));
    }
    Ok(out)
}

/// A populated place as the reading sees it: its `min_zoom` on a grid of
/// tenths where it is a number, its name where it is a string, and its
/// coordinates where they are a list, each item in hundredths of a degree
/// where it is a number.
#[derive(Clone, Debug, PartialEq)]
pub struct PlaceFeature {
    pub zoom: Option<i64>,
    pub name: Option<String>,
    pub coordinates: Option<Vec<Option<i64>>>,
}

pub struct TownView {
    pub zoom: i64,
    pub lon: i64,
    pub lat: i64,
    pub name: Seq<char>,
}

impl View for Town {
    type V = TownView;

    open spec fn view(&self) -> TownView {
        TownView { zoom: self.zoom, lon: self.lon, lat: self.lat, name: self.name@ }
    }
}

pub open spec fn towns_view(v: Seq<Town>) -> Seq<TownView> {
    v.map_values(|t: Town| t@)
}

/// One place read: it needs a zoom, a name and at least two coordinates,
/// and the first two must be numbers.
pub open spec fn town_of(f: PlaceFeature) -> Result<TownView, GenErrorView> {
    match (f.zoom, f.name, f.coordinates) {
        (Some(z), Some(n), Some(c)) => if c@.len() >= 2 {
            match (c@[0], c@[1]) {
                (Some(lon), Some(lat)) => Ok(TownView { zoom: z, lon, lat, name: n@ }),
                _ => Err(GenErrorView::PlaceNumbers),
            }
        } else {
            Err(GenErrorView::Place)
        },
        _ => Err(GenErrorView::Place),
    }
}

/// The places read in file order, or why the reading stopped at the first
/// that fails.
pub open spec fn towns_read(fs: Seq<PlaceFeature>) -> Result<Seq<TownView>, GenErrorView>
    decreases fs.len(),
{
    if fs.len() == 0 {
        Ok(seq![])
    } else {
        match towns_read(fs.drop_last()) {
            Err(e) => Err(e),
            Ok(ts) => match town_of(fs.last()) {
                Ok(t) => Ok(ts.push(t)),
                Err(e) => Err(e),
            },
        }
    }
}

/// The towns of a given zoom, in order.
pub open spec fn with_zoom(s: Seq<TownView>, z: i64) -> Seq<TownView>
    decreases s.len(),
{
    if s.len() == 0 {
        seq![]
    } else if s.last().zoom == z {
        with_zoom(s.drop_last(), z).push(s.last())
    } else {
        with_zoom(s.drop_last(), z)
    }
}

pub open spec fn zoom_sorted(s: Seq<TownView>) -> bool {
    forall|i: int, j: int| 0 <= i < j < s.len() ==> s[i].zoom <= s[j].zoom
}

/// `out` is `inp` sorted by zoom, stably: towns of one zoom keep their
/// order.
pub open spec fn stable_sort_of(out: Seq<TownView>, inp: Seq<TownView>) -> bool {
    &&& zoom_sorted(out)
    &&& forall|z: i64| #[trigger] with_zoom(out, z) == with_zoom(inp, z)
}

proof fn lemma_with_zoom_add(a: Seq<TownView>, b: Seq<TownView>, z: i64)
    ensures
        with_zoom(a + b, z) == with_zoom(a, z) + with_zoom(b, z),
    decreases b.len(),
{
    if b.len() == 0 {
        assert(a + b == a);
        assert(with_zoom(a, z) + with_zoom(b, z) == with_zoom(a, z));
    } else {
        assert((a + b).drop_last() == a + b.drop_last());
        assert((a + b).last() == b.last());
        lemma_with_zoom_add(a, b.drop_last(), z);
        if b.last().zoom == z {
            assert(with_zoom(a + b, z) == (with_zoom(a, z) + with_zoom(b.drop_last(), z)).push(
                b.last(),
            ));
            assert((with_zoom(a, z) + with_zoom(b.drop_last(), z)).push(b.last()) == with_zoom(
                a,
                z,
            ) + with_zoom(b.drop_last(), z).push(b.last()));
        }
    }
}

proof fn lemma_with_zoom_none(s: Seq<TownView>, z: i64)
    requires
        forall|i: int| 0 <= i < s.len() ==> s[i].zoom != z,
    ensures
        with_zoom(s, z) == Seq::<TownView>::empty(),
    decreases s.len(),
{
    if s.len() > 0 {
        lemma_with_zoom_none(s.drop_last(), z);
    }
}

proof fn lemma_with_zoom_one(t: TownView, z: i64)
    ensures
        with_zoom(seq![t], z) == (if t.zoom == z {
            seq![t]
        } else {
            Seq::<TownView>::empty()
        }),
{
    assert(seq![t].drop_last() == Seq::<TownView>::empty());
    assert(seq![t].last() == t);
    assert(with_zoom(Seq::<TownView>::empty(), z) == Seq::<TownView>::empty());
    if t.zoom == z {
        assert(with_zoom(seq![t], z) == with_zoom(Seq::<TownView>::empty(), z).push(t));
        assert(Seq::<TownView>::empty().push(t) =~= seq![t]);
    } else {
        assert(with_zoom(seq![t], z) == with_zoom(Seq::<TownView>::empty(), z));
    }
}

/// Inserting a town after every town of its zoom or less, and before the
/// rest, keeps a stable sort stable.
proof fn lemma_insert_stable(out: Seq<TownView>, inp: Seq<TownView>, t: TownView, pos: int)
    requires
        stable_sort_of(out, inp),
        0 <= pos <= out.len(),
        forall|i: int| 0 <= i < pos ==> out[i].zoom <= t.zoom,
        forall|i: int| pos <= i < out.len() ==> out[i].zoom > t.zoom,
    ensures
        stable_sort_of(out.insert(pos, t), inp.push(t)),
{
    let pre = out.take(pos);
    let suf = out.skip(pos);
    let n = out.insert(pos, t);
    assert(n == pre + seq![t] + suf);
    assert(out == pre + suf);
    assert forall|i: int, j: int| 0 <= i < j < n.len() implies n[i].zoom <= n[j].zoom by {
        if j < pos {
            assert(n[i] == out[i] && n[j] == out[j]);
        } else if j == pos {
            assert(n[i] == out[i]);
        } else if i < pos {
            assert(n[i] == out[i] && n[j] == out[j - 1]);
        } else if i == pos {
            assert(n[j] == out[j - 1]);
        } else {
            assert(n[i] == out[i - 1] && n[j] == out[j - 1]);
        }
    }
    assert forall|z: i64| #[trigger] with_zoom(n, z) == with_zoom(inp.push(t), z) by {
        lemma_with_zoom_add(pre + seq![t], suf, z);
        lemma_with_zoom_add(pre, seq![t], z);
        lemma_with_zoom_add(pre, suf, z);
        lemma_with_zoom_one(t, z);
        lemma_with_zoom_add(inp, seq![t], z);
        assert(inp.push(t) == inp + seq![t]);
        assert(with_zoom(out, z) == with_zoom(inp, z));
        if z == t.zoom {
            assert forall|i: int| 0 <= i < suf.len() implies suf[i].zoom != z by {
                assert(suf[i] == out[pos + i]);
            }
            lemma_with_zoom_none(suf, z);
            assert(with_zoom(pre, z) + with_zoom(suf, z) == with_zoom(pre, z));
        } else {
            assert(with_zoom(pre, z) + Seq::<TownView>::empty() == with_zoom(pre, z));
        }
    }
}

fn town_from(f: &PlaceFeature) -> (r: Result<Town, GenError>)
    ensures
        match r {
            Ok(t) => town_of(*f) == Ok::<TownView, GenErrorView>(t@),
            Err(e) => town_of(*f) == Err::<TownView, GenErrorView>(e@),
        },
{
    match (&f.zoom, &f.name, &f.coordinates) {
        (Some(z), Some(n), Some(c)) => {
            if c.len() >= 2 {
                match (&c[0], &c[1]) {
                    (Some(lon), Some(lat)) => Ok(Town { zoom: *z, lon: *lon, lat: *lat, name: n.clone() }),
                    _ => Err(GenError::PlaceNumbers),
                }
            } else {
                Err(GenError::Place)
            }
        },
        _ => Err(GenError::Place),
    }
}

/// The towns of the populated places, by prominence; file order breaks
/// ties. A place without zoom, name or coordinates, or with coordinates
/// that are not numbers, stops the reading.
pub fn towns(features: &Vec<PlaceFeature>) -> (r: Result<Vec<Town>, GenError>)
    ensures
        match r {
            Ok(ts) => towns_read(features@) matches Ok(read) && stable_sort_of(towns_view(ts@), read),
            Err(e) => towns_read(features@) == Err::<Seq<TownView>, GenErrorView>(e@),
        },
{
    let ghost fs = features@;
    let mut out: Vec<Town> = Vec::new();
    let ghost mut read: Seq<TownView> = seq![];
    let mut i: usize = 0;
    proof {
        assert(fs.take(0) =~= Seq::<PlaceFeature>::empty());
        assert(towns_view(out@) =~= Seq::<TownView>::empty());
        assert forall|z: i64| #[trigger] with_zoom(towns_view(out@), z) == with_zoom(read, z) by {
        }
    }
    while i < features.len()
        invariant
            i <= fs.len(),
            fs == features@,
            towns_read(fs.take(i as int)) == Ok::<Seq<TownView>, GenErrorView>(read),
            stable_sort_of(towns_view(out@), read),
        decreases fs.len() - i,
    {
        proof {
            assert(fs.take(i + 1).drop_last() == fs.take(i as int));
            assert(fs.take(i + 1).last() == fs[i as int]);
        }
        match town_from(&features[i]) {
            Err(e) => {
                proof {
                    lemma_towns_err(fs, i + 1);
                }
                return Err(e);
            },
            Ok(t) => {
                let mut pos: usize = 0;
                while pos < out.len() && out[pos].zoom <= t.zoom
                    invariant
                        pos <= out@.len(),
                        forall|k: int| 0 <= k < pos ==> out@[k].zoom <= t.zoom,
                    decreases out@.len() - pos,
                {
                    pos += 1;
                }
                let ghost ov = towns_view(out@);
                let ghost tv = t@;
                proof {
                    assert forall|k: int| pos <= k < ov.len() implies ov[k].zoom > tv.zoom by {
                        assert(ov[pos as int].zoom > tv.zoom);
                        if k > pos {
                            assert(ov[pos as int].zoom <= ov[k].zoom);
                        }
                    }
                    lemma_insert_stable(ov, read, tv, pos as int);
                }
                out.insert(pos, t);
                proof {
                    assert(towns_view(out@) =~= ov.insert(pos as int, tv));
                    read = read.push(tv);
                }
            },
        }
        i += 1;
    }
    proof {
        assert(fs.take(fs.len() as int) == fs);
    }
    Ok(out)
}

proof fn lemma_towns_err(fs: Seq<PlaceFeature>, k: int)
    requires
        0 <= k <= fs.len(),
        towns_read(fs.take(k)) is Err,
    ensures
        towns_read(fs) == towns_read(fs.take(k)),
    decreases fs.len() - k,
{
    if k < fs.len() {
        assert(fs.take(k + 1).drop_last() == fs.take(k));
        lemma_towns_err(fs, k + 1);
    } else {
        assert(fs.take(k) == fs);
    }
}

pub open spec fn clamped(v: int, lo: int, hi: int) -> int {
    if v < lo {
        lo
    } else if v > hi {
        hi
    } else {
        v
    }
}

/// The cell of a point without wrapping, a ring never crosses the
/// antimeridian in Natural Earth; the east and north edges fold into the
/// last cell.
pub open spec fn grid_cell(deg: int, p: Point) -> Key {
    (
        clamped((p.0 + 18000) / (100 * deg), 0, columns_of(deg) - 1) as i64,
        clamped((p.1 + 9000) / (100 * deg), 0, rows_of(deg) - 1) as i64,
    )
}

/// The generator files a point under the cell the client looks it up in:
/// on a level whose cells tile the world, for every point from the
/// antimeridian eastwards short of it, folding the last column is wrapping
/// it.
pub proof fn law_cells_agree(level: Level, lon: i64, lat: i64)
    requires
        level.wf(),
        360int % (level.deg as int) == 0,
        -18000 <= lon < 18000,
    ensures
        grid_cell(level.deg as int, (lon, lat)) == wrap_of(
            level.deg as int,
            (lon + 18000) / (100 * level.deg),
            (lat + 9000) / (100 * level.deg),
        ),
{
    let d = level.deg as int;
    let m = 360int / d;
    let x = lon + 18000;
    let ix = x / (100 * d);
    assert(360 == d * m) by (nonlinear_arith)
        requires
            d > 0,
            360int % d == 0,
            m == 360int / d,
    ;
    assert((720 + d) / (2 * d) == m) by (nonlinear_arith)
        requires
            d > 0,
            360 == d * m,
    ;
    assert(0 <= ix < m) by (nonlinear_arith)
        requires
            d > 0,
            360 == d * m,
            0 <= x < 36000,
            ix == x / (100 * d),
    ;
    lemma_small_mod(ix as nat, m as nat);
}

/// The cell of a point given in hundredths of a degree, without wrapping.
pub fn cell(level: &Level, p: Point) -> (r: Key)
    requires
        level.wf(),
    ensures
        r == grid_cell(level.deg as int, p),
        0 <= r.0 < columns_of(level.deg as int),
        0 <= r.1 < rows_of(level.deg as int),
{
    proof {
        lemma_grid(level.deg as int);
    }
    let d = 100 * (level.deg as i128);
    proof {
        assert(-0x8000_0000_0000_0000 <= (p.0 + 18000) / (d as int) <= 0x7fff_ffff_ffff_ffff) by (nonlinear_arith)
            requires
                d >= 100,
                -0x8000_0000_0000_0000 <= p.0 <= 0x7fff_ffff_ffff_ffff,
        ;
        assert(-0x8000_0000_0000_0000 <= (p.1 + 9000) / (d as int) <= 0x7fff_ffff_ffff_ffff) by (nonlinear_arith)
            requires
                d >= 100,
                -0x8000_0000_0000_0000 <= p.1 <= 0x7fff_ffff_ffff_ffff,
        ;
    }
    let ix = match (p.0 as i128 + 18000).checked_div_euclid(d) {
        Some(q) => q,
        None => 0,
    };
    let iy = match (p.1 as i128 + 9000).checked_div_euclid(d) {
        Some(q) => q,
        None => 0,
    };
    let cols = level.columns() as i128;
    let rows = level.rows() as i128;
    let x = if ix < 0 {
        0
    } else if ix > cols - 1 {
        cols - 1
    } else {
        ix
    };
    let y = if iy < 0 {
        0
    } else if iy > rows - 1 {
        rows - 1
    } else {
        iy
    };
    (x as i64, y as i64)
}

/// Where splitting a line into cells stands: the run being drawn, the cell
/// it is in, and the runs finished.
pub struct Split {
    pub run: Seq<Point>,
    pub current: Option<Key>,
    pub done: Seq<(Key, Seq<Point>)>,
}

/// The next point of a line: leaving the cell ends the run with the point
/// that crosses, and the next run starts from the segment that crossed.
pub open spec fn split_step(st: Split, p: Point, key: Key) -> Split {
    match st.current {
        Some(c) => if c != key {
            let run = st.run.push(p);
            Split {
                run: seq![run[run.len() - 2], p],
                current: Some(key),
                done: if run.len() >= 2 {
                    st.done.push((c, run))
                } else {
                    st.done
                },
            }
        } else {
            Split { run: st.run.push(p), current: Some(key), done: st.done }
        },
        None => Split { run: st.run.push(p), current: Some(key), done: st.done },
    }
}

pub open spec fn split_points(deg: int, ps: Seq<Point>) -> Split
    decreases ps.len(),
{
    if ps.len() == 0 {
        Split { run: seq![], current: None, done: seq![] }
    } else {
        split_step(split_points(deg, ps.drop_last()), ps.last(), grid_cell(deg, ps.last()))
    }
}

/// The runs of a line, each in the cell it is drawn in; a run needs two
/// points.
pub open spec fn split_of(deg: int, ps: Seq<Point>) -> Seq<(Key, Seq<Point>)> {
    let st = split_points(deg, ps);
    match st.current {
        Some(c) => if st.run.len() >= 2 {
            st.done.push((c, st.run))
        } else {
            st.done
        },
        None => st.done,
    }
}

pub open spec fn runs_view(v: Seq<(Key, Vec<Point>)>) -> Seq<(Key, Seq<Point>)> {
    v.map_values(|r: (Key, Vec<Point>)| (r.0, r.1@))
}

/// A run of points drawn in one cell: two points at least, and every point
/// but the first and the last in that cell.
pub open spec fn run_in_cell(deg: int, key: Key, run: Seq<Point>) -> bool {
    &&& run.len() >= 2
    &&& forall|j: int| 1 <= j < run.len() - 1 ==> grid_cell(deg, #[trigger] run[j]) == key
}

/// A line split where it leaves a cell, the crossing segment drawn from
/// both sides.
pub fn lines(level: &Level, points: &[Point]) -> (r: Vec<(Key, Vec<Point>)>)
    requires
        level.wf(),
    ensures
        runs_view(r@) == split_of(level.deg as int, points@),
        forall|i: int| 0 <= i < r@.len() ==> run_in_cell(level.deg as int, #[trigger] r@[i].0, r@[i].1@),
{
    let ghost deg = level.deg as int;
    let mut out: Vec<(Key, Vec<Point>)> = Vec::new();
    let mut run: Vec<Point> = Vec::new();
    let mut current: Option<Key> = None;
    let mut i: usize = 0;
    proof {
        assert(points@.take(0) =~= Seq::<Point>::empty());
        assert(runs_view(out@) =~= Seq::<(Key, Seq<Point>)>::empty());
    }
    while i < points.len()
        invariant
            i <= points@.len(),
            deg == level.deg,
            level.wf(),
            split_points(deg, points@.take(i as int)) == (Split { run: run@, current, done: runs_view(out@) }),
            current is Some ==> run@.len() >= 1,
            current matches Some(c) ==> forall|j: int| 1 <= j < run@.len() ==> grid_cell(deg, #[trigger] run@[j]) == c,
            current is None ==> run@.len() == 0,
            forall|k: int| 0 <= k < out@.len() ==> run_in_cell(deg, #[trigger] out@[k].0, out@[k].1@),
        decreases points@.len() - i,
    {
        let p = points[i];
        let key = cell(level, p);
        proof {
            assert(points@.take(i + 1).drop_last() == points@.take(i as int));
            assert(points@.take(i + 1).last() == p);
        }
        let ghost before = runs_view(out@);
        let ghost old_run = run@;
        match current {
            Some(c) if c.0 != key.0 || c.1 != key.1 => {
                run.push(p);
                let prev = run[run.len() - 2];
                let done = run;
                out.push((c, done));
                run = vec![prev, p];
                proof {
                    assert(runs_view(out@) =~= before.push((c, old_run.push(p))));
                    assert forall|j: int| 1 <= j < old_run.push(p).len() - 1 implies grid_cell(deg, #[trigger] old_run.push(p)[j]) == c by {
                        assert(old_run.push(p)[j] == old_run[j]);
                    }
                    assert(run@ =~= seq![old_run.push(p)[old_run.push(p).len() - 2], p]);
                }
            },
            _ => {
                run.push(p);
                proof {
                    assert forall|j: int| 1 <= j < run@.len() implies grid_cell(deg, #[trigger] run@[j]) == key by {
                        if j < old_run.len() {
                            assert(run@[j] == old_run[j]);
                        }
                    }
                }
            },
        }
        current = Some(key);
        i += 1;
    }
    proof {
        assert(points@.take(points@.len() as int) == points@);
    }
    match current {
        Some(c) => {
            if run.len() >= 2 {
                let ghost before = runs_view(out@);
                let ghost rv = run@;
                out.push((c, run));
                proof {
                    assert(runs_view(out@) =~= before.push((c, rv)));
                }
            }
        },
        None => {},
    }
    out
}

/// Run `j` takes up where run `j - 1` left its cell: it starts with the
/// segment that crossed, drawn from both sides, and lies in another cell.
pub open spec fn continues(runs: Seq<(Key, Seq<Point>)>, j: int) -> bool {
    let r = runs[j - 1].1;
    let s = runs[j].1;
    &&& r.len() >= 2
    &&& s.len() >= 2
    &&& s[0] == r[r.len() - 2]
    &&& s[1] == r[r.len() - 1]
    &&& runs[j - 1].0 != runs[j].0
}

/// What holds of splitting the first points of a line.
pub open spec fn split_inv(deg: int, ps: Seq<Point>, st: Split) -> bool {
    &&& ps.len() == 0 <==> st.current is None
    &&& ps.len() > 0 ==> st.current == Some(grid_cell(deg, ps.last())) && st.run.len() >= 1
        && st.run.last() == ps.last()
    &&& forall|j: int| 1 <= j < st.done.len() ==> #[trigger] continues(st.done, j)
    &&& st.done.len() > 0 ==> {
        let r = st.done.last().1;
        &&& r.len() >= 2
        &&& st.run.len() >= 2
        &&& st.run[0] == r[r.len() - 2]
        &&& st.run[1] == r[r.len() - 1]
        &&& st.current != Some(st.done.last().0)
        &&& st.done[0].1.len() > 0
        &&& st.done[0].1[0] == ps[0]
        &&& ps.len() >= 2
    }
    &&& st.done.len() == 0 ==> st.run.len() == ps.len() && (ps.len() > 0 ==> st.run[0] == ps[0])
}

proof fn lemma_split_inv(deg: int, ps: Seq<Point>)
    ensures
        split_inv(deg, ps, split_points(deg, ps)),
    decreases ps.len(),
{
    if ps.len() > 0 {
        let prefix = ps.drop_last();
        lemma_split_inv(deg, prefix);
        let st = split_points(deg, prefix);
        let p = ps.last();
        let key = grid_cell(deg, p);
        let nx = split_points(deg, ps);
        assert(nx == split_step(st, p, key));
        if prefix.len() > 0 {
            assert(prefix[0] == ps[0]);
        }
        match st.current {
            Some(c) => {
                if c != key {
                    let run = st.run.push(p);
                    assert(nx.done == st.done.push((c, run)));
                    assert forall|j: int| 1 <= j < nx.done.len() implies #[trigger] continues(nx.done, j) by {
                        if j < st.done.len() {
                            assert(continues(st.done, j));
                            assert(nx.done[j] == st.done[j]);
                            assert(nx.done[j - 1] == st.done[j - 1]);
                        } else {
                            assert(nx.done[j - 1] == st.done.last());
                            assert(run[0] == st.run[0]);
                            assert(run[1] == st.run[1]);
                        }
                    }
                    if st.done.len() == 0 {
                        assert(run[0] == st.run[0]);
                    } else {
                        assert(nx.done[0] == st.done[0]);
                    }
                }
            },
            None => {},
        }
    }
}

/// A line split where it leaves a cell: each run after the first starts
/// with the segment that crossed out of the run before it, drawn from both
/// sides, and lies in another cell; the runs start at the first point and
/// end at the last, and a line of two points or more has runs.
pub proof fn law_runs_continue(deg: int, ps: Seq<Point>)
    ensures
        forall|j: int| 1 <= j < split_of(deg, ps).len() ==> #[trigger] continues(split_of(deg, ps), j),
        split_of(deg, ps).len() == 0 <==> ps.len() < 2,
        split_of(deg, ps).len() > 0 ==> split_of(deg, ps)[0].1[0] == ps[0] && split_of(
            deg,
            ps,
        ).last().1.last() == ps.last(),
{
    lemma_split_inv(deg, ps);
    let st = split_points(deg, ps);
    let runs = split_of(deg, ps);
    match st.current {
        Some(c) => {
            if st.run.len() >= 2 {
                assert(runs == st.done.push((c, st.run)));
                assert forall|j: int| 1 <= j < runs.len() implies #[trigger] continues(runs, j) by {
                    if j < st.done.len() {
                        assert(continues(st.done, j));
                        assert(runs[j] == st.done[j]);
                        assert(runs[j - 1] == st.done[j - 1]);
                    } else {
                        assert(runs[j - 1] == st.done.last());
                    }
                }
                if st.done.len() > 0 {
                    assert(runs[0] == st.done[0]);
                }
            }
        },
        None => {},
    }
}

/// The least and greatest longitudes and latitudes of a ring, starting from
/// the extremes of `i64` as the fold over a ring does.
pub open spec fn bounds(ring: Seq<Point>) -> (int, int, int, int)
    decreases ring.len(),
{
    if ring.len() == 0 {
        (i64::MAX as int, i64::MIN as int, i64::MAX as int, i64::MIN as int)
    } else {
        let b = bounds(ring.drop_last());
        let p = ring.last();
        (
            if p.0 < b.0 { p.0 as int } else { b.0 },
            if p.0 > b.1 { p.0 as int } else { b.1 },
            if p.1 < b.2 { p.1 as int } else { b.2 },
            if p.1 > b.3 { p.1 as int } else { b.3 },
        )
    }
}

proof fn lemma_bounds_range(ring: Seq<Point>)
    ensures
        i64::MIN <= bounds(ring).0 <= i64::MAX,
        i64::MIN <= bounds(ring).1 <= i64::MAX,
        i64::MIN <= bounds(ring).2 <= i64::MAX,
        i64::MIN <= bounds(ring).3 <= i64::MAX,
    decreases ring.len(),
{
    if ring.len() > 0 {
        lemma_bounds_range(ring.drop_last());
    }
}

/// The cells a box covers: columns `c0..=c1` west to east, within each the
/// rows `r0..=r1` south to north.
pub open spec fn box_keys(c0: int, c1: int, r0: int, r1: int) -> Seq<Key> {
    if c1 < c0 || r1 < r0 {
        seq![]
    } else {
        let h = r1 - r0 + 1;
        Seq::new(((c1 - c0 + 1) * h) as nat, |k: int| ((c0 + k / h) as i64, (r0 + k % h) as i64))
    }
}

/// The cells a ring lands in: every cell its box touches.
pub open spec fn ring_keys(deg: int, ring: Seq<Point>) -> Seq<Key> {
    let b = bounds(ring);
    let lo = grid_cell(deg, (b.0 as i64, b.2 as i64));
    let hi = grid_cell(deg, (b.1 as i64, b.3 as i64));
    box_keys(lo.0 as int, hi.0 as int, lo.1 as int, hi.1 as int)
}

proof fn lemma_bounds_hold(ring: Seq<Point>, i: int)
    requires
        0 <= i < ring.len(),
    ensures
        bounds(ring).0 <= ring[i].0 <= bounds(ring).1,
        bounds(ring).2 <= ring[i].1 <= bounds(ring).3,
    decreases ring.len(),
{
    if i < ring.len() - 1 {
        lemma_bounds_hold(ring.drop_last(), i);
        assert(ring.drop_last()[i] == ring[i]);
    }
}

proof fn lemma_grid_cell_ordered(deg: int, p: Point, q: Point)
    requires
        0 < deg <= 360,
        p.0 <= q.0,
        p.1 <= q.1,
    ensures
        grid_cell(deg, p).0 <= grid_cell(deg, q).0,
        grid_cell(deg, p).1 <= grid_cell(deg, q).1,
        0 <= grid_cell(deg, p).0 < columns_of(deg),
        0 <= grid_cell(deg, p).1 < rows_of(deg),
{
    lemma_grid(deg);
    vstd::arithmetic::div_mod::lemma_div_is_ordered(p.0 + 18000, q.0 + 18000, 100 * deg);
    vstd::arithmetic::div_mod::lemma_div_is_ordered(p.1 + 9000, q.1 + 9000, 100 * deg);
}

/// A ring lands in every cell its box touches, so each of its points lies
/// in one of the cells it lands in.
pub proof fn law_ring_cells_hold_points(deg: int, ring: Seq<Point>, i: int)
    requires
        0 < deg <= 360,
        0 <= i < ring.len(),
    ensures
        ring_keys(deg, ring).contains(grid_cell(deg, ring[i])),
{
    let b = bounds(ring);
    lemma_bounds_range(ring);
    lemma_bounds_hold(ring, i);
    let lo_p: Point = (b.0 as i64, b.2 as i64);
    let hi_p: Point = (b.1 as i64, b.3 as i64);
    let g = grid_cell(deg, ring[i]);
    lemma_grid_cell_ordered(deg, lo_p, ring[i]);
    lemma_grid_cell_ordered(deg, ring[i], hi_p);
    let lo = grid_cell(deg, lo_p);
    let hi = grid_cell(deg, hi_p);
    let c0 = lo.0 as int;
    let r0 = lo.1 as int;
    let h = hi.1 - r0 + 1;
    let k = (g.0 - c0) * h + (g.1 - r0);
    lemma_fundamental_div_mod_converse(k, h, g.0 - c0, g.1 - r0);
    assert(0 <= k < (hi.0 - c0 + 1) * h) by (nonlinear_arith)
        requires
            0 <= g.0 - c0 <= hi.0 - c0,
            0 <= g.1 - r0 < h,
            k == (g.0 - c0) * h + (g.1 - r0),
    ;
    let ks = ring_keys(deg, ring);
    assert(ks[k] == g);
}

/// The cells a ring lands in, every cell its box touches, column by column.
pub fn ring_cells(level: &Level, ring: &[Point]) -> (r: Vec<Key>)
    requires
        level.wf(),
    ensures
        r@ == ring_keys(level.deg as int, ring@),
{
    let mut lon0 = i64::MAX;
    let mut lon1 = i64::MIN;
    let mut lat0 = i64::MAX;
    let mut lat1 = i64::MIN;
    let mut i: usize = 0;
    proof {
        assert(ring@.take(0) =~= Seq::<Point>::empty());
    }
    while i < ring.len()
        invariant
            i <= ring@.len(),
            bounds(ring@.take(i as int)) == (lon0 as int, lon1 as int, lat0 as int, lat1 as int),
        decreases ring@.len() - i,
    {
        let p = ring[i];
        proof {
            assert(ring@.take(i + 1).drop_last() == ring@.take(i as int));
            assert(ring@.take(i + 1).last() == p);
        }
        if p.0 < lon0 {
            lon0 = p.0;
        }
        if p.0 > lon1 {
            lon1 = p.0;
        }
        if p.1 < lat0 {
            lat0 = p.1;
        }
        if p.1 > lat1 {
            lat1 = p.1;
        }
        i += 1;
    }
    proof {
        assert(ring@.take(ring@.len() as int) == ring@);
    }
    let (c0, r0) = cell(level, (lon0, lat0));
    let (c1, r1) = cell(level, (lon1, lat1));
    let mut out: Vec<Key> = Vec::new();
    if c1 < c0 || r1 < r0 {
        proof {
            assert(out@ =~= ring_keys(level.deg as int, ring@));
        }
        return out;
    }
    let ghost h = r1 - r0 + 1;
    let mut ix = c0;
    proof {
        assert((ix - c0) * h == 0) by (nonlinear_arith)
            requires
                ix == c0,
        ;
        lemma_grid(level.deg as int);
    }
    while ix <= c1
        invariant
            c0 <= ix <= c1 + 1,
            r0 <= r1,
            0 <= c1 < 36000,
            0 <= r1 < 36000,
            h == r1 - r0 + 1,
            out@.len() == (ix - c0) * h,
            forall|k: int| 0 <= k < out@.len() ==> #[trigger] out@[k] == ((c0 + k / h) as i64, (r0 + k % h) as i64),
        decreases c1 + 1 - ix,
    {
        let mut iy = r0;
        while iy <= r1
            invariant
                c0 <= ix <= c1,
                r0 <= iy <= r1 + 1,
                0 <= c1 < 36000,
                0 <= r1 < 36000,
                h == r1 - r0 + 1,
                out@.len() == (ix - c0) * h + (iy - r0),
                forall|k: int| 0 <= k < out@.len() ==> #[trigger] out@[k] == ((c0 + k / h) as i64, (r0 + k % h) as i64),
            decreases r1 + 1 - iy,
        {
            proof {
                vstd::arithmetic::div_mod::lemma_fundamental_div_mod_converse(
                    (ix - c0) * h + (iy - r0),
                    h,
                    ix - c0,
                    iy - r0,
                );
            }
            out.push((ix, iy));
            iy += 1;
        }
        proof {
            assert((ix - c0) * h + h == (ix + 1 - c0) * h) by (nonlinear_arith);
        }
        ix += 1;
    }
    proof {
        assert((c1 - c0 + 1) * h == (ix - c0) * h);
        assert(out@ =~= ring_keys(level.deg as int, ring@));
    }
    out
}

/// The runs one layer puts into the cells of a level, in the order they
/// were cut.
#[derive(Clone, Debug, PartialEq)]
pub struct Cut {
    pub name: &'static str,
    pub runs: Vec<(Key, Vec<Point>)>,
}

pub struct CutView {
    pub name: Seq<char>,
    pub runs: Seq<(Key, Seq<Point>)>,
}

impl View for Cut {
    type V = CutView;

    open spec fn view(&self) -> CutView {
        CutView { name: self.name@, runs: runs_view(self.runs@) }
    }
}

pub open spec fn cuts_view(v: Seq<Cut>) -> Seq<CutView> {
    v.map_values(|c: Cut| c@)
}

/// The runs of a cut that fall in one cell, in order.
pub open spec fn runs_at(runs: Seq<(Key, Seq<Point>)>, k: Key) -> Seq<Seq<Point>>
    decreases runs.len(),
{
    if runs.len() == 0 {
        seq![]
    } else if runs.last().0 == k {
        runs_at(runs.drop_last(), k).push(runs.last().1)
    } else {
        runs_at(runs.drop_last(), k)
    }
}

/// A section of a cell file: a line of `=` and its name, then its lines;
/// nothing at all when it has no lines.
pub open spec fn section(name: Seq<char>, ls: Seq<Seq<char>>) -> Seq<Seq<char>> {
    if ls.len() == 0 {
        seq![]
    } else {
        seq![seq!['='] + name] + ls
    }
}

/// The sections of the layers in one cell, layer after layer.
pub open spec fn cuts_lines(cuts: Seq<CutView>, k: Key) -> Seq<Seq<char>>
    decreases cuts.len(),
{
    if cuts.len() == 0 {
        seq![]
    } else {
        cuts_lines(cuts.drop_last(), k) + section(
            cuts.last().name,
            runs_at(cuts.last().runs, k).map_values(|r: Seq<Point>| line_text(r)),
        )
    }
}

/// The towns that fall in one cell, in order.
pub open spec fn towns_at(towns: Seq<TownView>, deg: int, k: Key) -> Seq<TownView>
    decreases towns.len(),
{
    if towns.len() == 0 {
        seq![]
    } else if grid_cell(deg, (towns.last().lon, towns.last().lat)) == k {
        towns_at(towns.drop_last(), deg, k).push(towns.last())
    } else {
        towns_at(towns.drop_last(), deg, k)
    }
}

pub open spec fn town_text(t: TownView) -> Seq<char> {
    place_text(t.zoom as int, t.lon as int, t.lat as int, t.name)
}

/// The lines of the file of one cell: the sections of the layers in order,
/// then the towns.
pub open spec fn file_lines(deg: int, cuts: Seq<CutView>, towns: Seq<TownView>, k: Key) -> Seq<
    Seq<char>,
> {
    cuts_lines(cuts, k) + section(
        places_name(),
        towns_at(towns, deg, k).map_values(|t: TownView| town_text(t)),
    )
}

/// The runs a cell holds are exactly the runs cut into that cell, in the
/// order they were cut.
pub proof fn law_runs_at_are_the_cells_runs(runs: Seq<(Key, Seq<Point>)>, k: Key)
    ensures
        runs_at(runs, k) == runs.filter(|r: (Key, Seq<Point>)| r.0 == k).map_values(
            |r: (Key, Seq<Point>)| r.1,
        ),
    decreases runs.len(),
{
    reveal(Seq::filter);
    if runs.len() > 0 {
        law_runs_at_are_the_cells_runs(runs.drop_last(), k);
        let f = runs.drop_last().filter(|r: (Key, Seq<Point>)| r.0 == k);
        assert(f.push(runs.last()).map_values(|r: (Key, Seq<Point>)| r.1) =~= f.map_values(
            |r: (Key, Seq<Point>)| r.1,
        ).push(runs.last().1));
    }
}

/// The towns a cell holds are exactly the towns that fall in that cell, in
/// their order.
pub proof fn law_towns_at_are_the_cells_towns(towns: Seq<TownView>, deg: int, k: Key)
    ensures
        towns_at(towns, deg, k) == towns.filter(|t: TownView| grid_cell(deg, (t.lon, t.lat)) == k),
    decreases towns.len(),
{
    reveal(Seq::filter);
    if towns.len() > 0 {
        law_towns_at_are_the_cells_towns(towns.drop_last(), deg, k);
    }
}

proof fn lemma_runs_at_none(runs: Seq<(Key, Seq<Point>)>, k: Key)
    requires
        forall|i: int| 0 <= i < runs.len() ==> (#[trigger] runs[i]).0 != k,
    ensures
        runs_at(runs, k).len() == 0,
    decreases runs.len(),
{
    if runs.len() > 0 {
        assert(runs.last() == runs[runs.len() - 1]);
        assert forall|i: int| 0 <= i < runs.drop_last().len() implies (#[trigger] runs.drop_last()[i]).0 != k by {
            assert(runs.drop_last()[i] == runs[i]);
        }
        lemma_runs_at_none(runs.drop_last(), k);
    }
}

proof fn lemma_towns_at_none(towns: Seq<TownView>, deg: int, k: Key)
    requires
        forall|i: int| 0 <= i < towns.len() ==> grid_cell(deg, (#[trigger] towns[i].lon, towns[i].lat)) != k,
    ensures
        towns_at(towns, deg, k).len() == 0,
    decreases towns.len(),
{
    if towns.len() > 0 {
        assert(towns.last() == towns[towns.len() - 1]);
        assert forall|i: int| 0 <= i < towns.drop_last().len() implies grid_cell(
            deg,
            (#[trigger] towns.drop_last()[i].lon, towns.drop_last()[i].lat),
        ) != k by {
            assert(towns.drop_last()[i] == towns[i]);
        }
        lemma_towns_at_none(towns.drop_last(), deg, k);
    }
}

proof fn lemma_no_runs_here(cuts: Seq<CutView>, k: Key)
    requires
        forall|j: int, i: int| 0 <= j < cuts.len() && 0 <= i < cuts[j].runs.len() ==> (#[trigger] cuts[j].runs[i]).0 != k,
    ensures
        cuts_lines(cuts, k) == Seq::<Seq<char>>::empty(),
    decreases cuts.len(),
{
    if cuts.len() > 0 {
        let last = cuts.last();
        assert forall|j: int, i: int| 0 <= j < cuts.drop_last().len() && 0 <= i < cuts.drop_last()[j].runs.len() implies (
        #[trigger] cuts.drop_last()[j].runs[i]).0 != k by {
            assert(cuts.drop_last()[j] == cuts[j]);
        }
        lemma_no_runs_here(cuts.drop_last(), k);
        assert forall|i: int| 0 <= i < last.runs.len() implies (#[trigger] last.runs[i]).0 != k by {
            assert(cuts[cuts.len() - 1].runs[i].0 != k);
        }
        lemma_runs_at_none(last.runs, k);
        assert(cuts_lines(cuts, k) =~= Seq::<Seq<char>>::empty());
    }
}

/// A cell that no run is cut into and no town falls in has an empty file.
pub proof fn law_empty_cell_empty_file(deg: int, cuts: Seq<CutView>, towns: Seq<TownView>, k: Key)
    requires
        forall|j: int, i: int| 0 <= j < cuts.len() && 0 <= i < cuts[j].runs.len() ==> (#[trigger] cuts[j].runs[i]).0 != k,
        forall|i: int| 0 <= i < towns.len() ==> grid_cell(deg, (#[trigger] towns[i].lon, towns[i].lat)) != k,
    ensures
        file_lines(deg, cuts, towns, k) == Seq::<Seq<char>>::empty(),
{
    lemma_no_runs_here(cuts, k);
    lemma_towns_at_none(towns, deg, k);
    assert(file_lines(deg, cuts, towns, k) =~= Seq::<Seq<char>>::empty());
}

/// Every cell of a level, west to east, within each column south to north.
pub open spec fn grid_key(deg: int, i: int) -> Key {
    ((i / rows_of(deg)) as i64, (i % rows_of(deg)) as i64)
}

/// A file for every cell, so a miss is an error: the files of a level name
/// every cell of its grid, each once.
pub proof fn law_grid_keys(deg: int)
    requires
        0 < deg <= 360,
    ensures
        forall|ix: int, iy: int|
            0 <= ix < columns_of(deg) && 0 <= iy < rows_of(deg) ==> #[trigger] grid_key(deg, ix * rows_of(deg) + iy)
                == (ix as i64, iy as i64),
        forall|i: int, j: int|
            0 <= i < j < columns_of(deg) * rows_of(deg) ==> #[trigger] grid_key(deg, i) != #[trigger] grid_key(
                deg,
                j,
            ),
{
    lemma_grid(deg);
    let r = rows_of(deg);
    assert forall|ix: int, iy: int|
        0 <= ix < columns_of(deg) && 0 <= iy < r implies #[trigger] grid_key(deg, ix * r + iy) == (
        ix as i64,
        iy as i64,
    ) by {
        lemma_fundamental_div_mod_converse(ix * r + iy, r, ix, iy);
    }
    assert forall|i: int, j: int| 0 <= i < j < columns_of(deg) * r implies #[trigger] grid_key(deg, i)
        != #[trigger] grid_key(deg, j) by {
        vstd::arithmetic::div_mod::lemma_fundamental_div_mod(i, r);
        vstd::arithmetic::div_mod::lemma_fundamental_div_mod(j, r);
        vstd::arithmetic::div_mod::lemma_mod_bound(i, r);
        vstd::arithmetic::div_mod::lemma_mod_bound(j, r);
        vstd::arithmetic::div_mod::lemma_div_pos_is_pos(i, r);
        vstd::arithmetic::div_mod::lemma_div_pos_is_pos(j, r);
        assert(i / r <= 36000 * 36000) by (nonlinear_arith)
            requires
                0 <= i < columns_of(deg) * r,
                1 <= r <= 36000,
                columns_of(deg) <= 36000,
                i == r * (i / r) + i % r,
                0 <= i % r,
        ;
        assert(j / r <= 36000 * 36000) by (nonlinear_arith)
            requires
                0 <= j < columns_of(deg) * r,
                1 <= r <= 36000,
                columns_of(deg) <= 36000,
                j == r * (j / r) + j % r,
                0 <= j % r,
        ;
    }
}

fn section_header(name: &str) -> (r: String)
    ensures
        r@ == seq!['='] + name@,
{
    let mut out: Vec<char> = vec!['='];
    push_str(&mut out, name);
    proof {
        assert(out@ =~= seq!['='] + name@);
    }
    string_of(out.as_slice())
}

/// Appends a section to the lines of a file.
fn push_section(out: &mut Vec<String>, header: String, body: Vec<String>)
    requires
        header@.len() > 0,
    ensures
        strings_view(final(out)@) == strings_view(old(out)@) + (if body@.len() == 0 {
            Seq::<Seq<char>>::empty()
        } else {
            seq![header@] + strings_view(body@)
        }),
{
    if body.len() == 0 {
        proof {
            assert(strings_view(old(out)@) + Seq::<Seq<char>>::empty() =~= strings_view(old(out)@));
        }
        return;
    }
    let ghost start = strings_view(out@);
    let ghost hv = header@;
    out.push(header);
    let mut i: usize = 0;
    proof {
        assert(strings_view(out@) =~= start + seq![hv] + strings_view(body@.take(0)));
    }
    while i < body.len()
        invariant
            i <= body@.len(),
            strings_view(out@) =~= start + seq![hv] + strings_view(body@.take(i as int)),
        decreases body@.len() - i,
    {
        let ghost before = strings_view(out@);
        let line = body[i].clone();
        out.push(line);
        proof {
            assert(strings_view(body@.take(i + 1)) =~= strings_view(body@.take(i as int)).push(body@[i as int]@));
            assert(strings_view(out@) =~= before.push(body@[i as int]@));
        }
        i += 1;
    }
    proof {
        assert(body@.take(body@.len() as int) == body@);
    }
}

/// The lines of the runs of a cut that fall in one cell.
fn cut_body(cut: &Cut, k: Key) -> (r: Vec<String>)
    ensures
        strings_view(r@) == runs_at(cut@.runs, k).map_values(|r: Seq<Point>| line_text(r)),
{
    let ghost rs = cut@.runs;
    let mut out: Vec<String> = Vec::new();
    let mut i: usize = 0;
    proof {
        assert(rs.take(0) =~= Seq::<(Key, Seq<Point>)>::empty());
        assert(strings_view(out@) =~= runs_at(rs.take(0), k).map_values(|r: Seq<Point>| line_text(r)));
    }
    while i < cut.runs.len()
        invariant
            i <= rs.len(),
            rs == runs_view(cut.runs@),
            strings_view(out@) == runs_at(rs.take(i as int), k).map_values(|r: Seq<Point>| line_text(r)),
        decreases rs.len() - i,
    {
        let (key, run) = (&cut.runs[i].0, &cut.runs[i].1);
        proof {
            assert(rs.take(i + 1).drop_last() == rs.take(i as int));
            assert(rs.take(i + 1).last() == (*key, run@));
        }
        if key.0 == k.0 && key.1 == k.1 {
            let ghost before = strings_view(out@);
            let text = line(run.as_slice());
            out.push(text);
            proof {
                assert(strings_view(out@) =~= before.push(line_text(run@)));
                assert(runs_at(rs.take(i + 1), k) == runs_at(rs.take(i as int), k).push(run@));
                assert(runs_at(rs.take(i + 1), k).map_values(|r: Seq<Point>| line_text(r)) =~= runs_at(rs.take(i as int), k).map_values(|r: Seq<Point>| line_text(r)).push(line_text(run@)));
            }
        }
        i += 1;
    }
    proof {
        assert(rs.take(rs.len() as int) == rs);
    }
    out
}

/// The lines of the towns that fall in one cell.
fn towns_body(level: &Level, towns: &[Town], k: Key) -> (r: Vec<String>)
    requires
        level.wf(),
    ensures
        strings_view(r@) == towns_at(towns_view(towns@), level.deg as int, k).map_values(
            |t: TownView| town_text(t),
        ),
{
    let ghost ts = towns_view(towns@);
    let ghost deg = level.deg as int;
    let mut out: Vec<String> = Vec::new();
    let mut i: usize = 0;
    proof {
        assert(ts.take(0) =~= Seq::<TownView>::empty());
        assert(strings_view(out@) =~= towns_at(ts.take(0), deg, k).map_values(|t: TownView| town_text(t)));
    }
    while i < towns.len()
        invariant
            i <= ts.len(),
            ts == towns_view(towns@),
            deg == level.deg,
            level.wf(),
            strings_view(out@) == towns_at(ts.take(i as int), deg, k).map_values(|t: TownView| town_text(t)),
        decreases ts.len() - i,
    {
        let t = &towns[i];
        proof {
            assert(ts.take(i + 1).drop_last() == ts.take(i as int));
            assert(ts.take(i + 1).last() == t@);
        }
        let at = cell(level, (t.lon, t.lat));
        if at.0 == k.0 && at.1 == k.1 {
            let ghost before = strings_view(out@);
            let text = place_line(t);
            out.push(text);
            proof {
                assert(strings_view(out@) =~= before.push(town_text(t@)));
                assert(towns_at(ts.take(i + 1), deg, k).map_values(|t: TownView| town_text(t)) =~= towns_at(ts.take(i as int), deg, k).map_values(|t: TownView| town_text(t)).push(town_text(t@)));
            }
        }
        i += 1;
    }
    proof {
        assert(ts.take(ts.len() as int) == ts);
    }
    out
}

/// The lines of the file of one cell: each layer's section, then the towns.
pub fn cell_file(level: &Level, cuts: &[Cut], towns: &[Town], k: Key) -> (r: Vec<String>)
    requires
        level.wf(),
    ensures
        strings_view(r@) == file_lines(level.deg as int, cuts_view(cuts@), towns_view(towns@), k),
{
    let ghost cv = cuts_view(cuts@);
    let mut out: Vec<String> = Vec::new();
    let mut j: usize = 0;
    proof {
        assert(cv.take(0) =~= Seq::<CutView>::empty());
        assert(strings_view(out@) =~= cuts_lines(cv.take(0), k));
    }
    while j < cuts.len()
        invariant
            j <= cv.len(),
            cv == cuts_view(cuts@),
            strings_view(out@) == cuts_lines(cv.take(j as int), k),
        decreases cv.len() - j,
    {
        let cut = &cuts[j];
        proof {
            assert(cv.take(j + 1).drop_last() == cv.take(j as int));
            assert(cv.take(j + 1).last() == cut@);
        }
        let header = section_header(cut.name);
        let body = cut_body(cut, k);
        push_section(&mut out, header, body);
        j += 1;
    }
    proof {
        assert(cv.take(cv.len() as int) == cv);
    }
    let header = section_header("places");
    proof {
        reveal_strlit("places");
        assert(header@ == seq!['='] + places_name());
    }
    let body = towns_body(level, towns, k);
    push_section(&mut out, header, body);
    out
}

/// The files of every cell of a level, so a miss is an error and open sea is
/// empty: west to east, within each column south to north.
pub fn level_files(level: &Level, cuts: &[Cut], towns: &[Town]) -> (r: Vec<(Key, Vec<String>)>)
    requires
        level.wf(),
    ensures
        r@.len() == columns_of(level.deg as int) * rows_of(level.deg as int),
        forall|i: int|
            0 <= i < r@.len() ==> #[trigger] r@[i].0 == grid_key(level.deg as int, i)
                && strings_view(r@[i].1@) == file_lines(
                level.deg as int,
                cuts_view(cuts@),
                towns_view(towns@),
                r@[i].0,
            ),
{
    proof {
        lemma_grid(level.deg as int);
    }
    let cols = level.columns();
    let rows = level.rows();
    let ghost deg = level.deg as int;
    let mut out: Vec<(Key, Vec<String>)> = Vec::new();
    let mut ix: i64 = 0;
    proof {
        assert(ix * rows == 0);
    }
    while ix < cols
        invariant
            0 <= ix <= cols,
            cols == columns_of(deg),
            rows == rows_of(deg),
            1 <= rows <= cols <= 36000,
            deg == level.deg,
            level.wf(),
            out@.len() == ix * rows,
            forall|i: int|
                0 <= i < out@.len() ==> #[trigger] out@[i].0 == grid_key(deg, i) && strings_view(
                    out@[i].1@,
                ) == file_lines(deg, cuts_view(cuts@), towns_view(towns@), out@[i].0),
        decreases cols - ix,
    {
        let mut iy: i64 = 0;
        while iy < rows
            invariant
                0 <= ix < cols,
                0 <= iy <= rows,
                cols == columns_of(deg),
                rows == rows_of(deg),
                1 <= rows <= cols <= 36000,
                deg == level.deg,
                level.wf(),
                out@.len() == ix * rows + iy,
                forall|i: int|
                    0 <= i < out@.len() ==> #[trigger] out@[i].0 == grid_key(deg, i) && strings_view(
                        out@[i].1@,
                    ) == file_lines(deg, cuts_view(cuts@), towns_view(towns@), out@[i].0),
            decreases rows - iy,
        {
            let k = (ix, iy);
            let lines = cell_file(level, cuts, towns, k);
            proof {
                vstd::arithmetic::div_mod::lemma_fundamental_div_mod_converse(
                    ix * rows + iy,
                    rows as int,
                    ix as int,
                    iy as int,
                );
                assert(ix * rows + iy < 36000 * 36000) by (nonlinear_arith)
                    requires
                        0 <= ix < cols <= 36000,
                        0 <= iy < rows <= 36000,
                ;
            }
            out.push((k, lines));
            iy += 1;
        }
        proof {
            assert(ix * rows + rows == (ix + 1) * rows) by (nonlinear_arith);
        }
        ix += 1;
    }
    out
}

/// The cut of a level: its grid of rounding, a tenth of a degree or finer,
/// and its layers in drawing order.
#[derive(Clone, Debug, PartialEq)]
pub struct Plan {
    pub level: Level,
    pub steps: u32,
    pub layers: Vec<(&'static str, Source)>,
}

pub open spec fn layer_views(v: Seq<(&'static str, Source)>) -> Seq<(Seq<char>, Seq<char>, bool, Keep)> {
    v.map_values(|l: (&'static str, Source)| (l.0@, l.1.file@, l.1.ring, l.1.keep))
}

/// The layers of the ten degree cells.
pub open spec fn ten_layers() -> Seq<(Seq<char>, Seq<char>, bool, Keep)> {
    seq![
        ("land"@, "ne_10m_land"@, true, Keep::All),
        ("urban"@, "ne_10m_urban_areas"@, true, Keep::All),
        ("lakes"@, "ne_10m_lakes"@, true, Keep::All),
        ("rivers"@, "ne_10m_rivers_lake_centerlines"@, false, Keep::River),
        ("admin1"@, "ne_10m_admin_1_states_provinces_lines"@, false, Keep::State),
        ("borders"@, "ne_10m_admin_0_boundary_lines_land"@, false, Keep::All),
    ]
}

/// The layers of the thirty degree cells.
pub open spec fn fifty_layers() -> Seq<(Seq<char>, Seq<char>, bool, Keep)> {
    seq![
        ("land"@, "ne_50m_land"@, true, Keep::All),
        ("lakes"@, "ne_50m_lakes"@, true, Keep::All),
        ("admin1"@, "ne_50m_admin_1_states_provinces_lines"@, false, Keep::State),
        ("borders"@, "ne_50m_admin_0_boundary_lines_land"@, false, Keep::All),
    ]
}

/// The level of ten degree cells.
pub open spec fn is_ten(l: Level) -> bool {
    l.name@ == "10m"@ && l.deg == 10 && l.max_w == 30
}

/// The level of thirty degree cells.
pub open spec fn is_fifty(l: Level) -> bool {
    l.name@ == "50m"@ && l.deg == 30 && l.max_w == 120
}

fn source(file: &'static str, ring: bool, keep: Keep) -> (r: Source)
    ensures
        r.file == file && r.ring == ring && r.keep == keep,
{
    Source { file, ring, keep }
}

/// The layers of each level with the grid of its rounding, in drawing
/// order: every layer of the ten degree cells at a hundredth of a degree,
/// the coarse land, lakes and lines of the thirty degree cells at a
/// twentieth.
pub fn plans() -> (r: Result<Vec<Plan>, GenError>)
    ensures
        r matches Ok(ps) && ps@.len() == 2 && is_ten(ps@[0].level) && ps@[0].steps == 100
            && layer_views(ps@[0].layers@) == ten_layers() && is_fifty(ps@[1].level)
            && ps@[1].steps == 20 && layer_views(ps@[1].layers@) == fifty_layers(),
{
    let all_levels = levels();
    let mut out: Vec<Plan> = Vec::new();
    let mut i: usize = 0;
    while i < 2
        invariant
            i <= 2,
            is_ten(all_levels[0]),
            is_fifty(all_levels[1]),
            out@.len() == i,
            i > 0 ==> is_ten(out@[0].level) && out@[0].steps == 100 && layer_views(out@[0].layers@) == ten_layers(),
            i > 1 ==> is_fifty(out@[1].level) && out@[1].steps == 20 && layer_views(out@[1].layers@) == fifty_layers(),
        decreases 2 - i,
    {
        let level = all_levels[i];
        if same_text(level.name, "10m") {
            let layers = vec![
                ("land", source("ne_10m_land", true, Keep::All)),
                ("urban", source("ne_10m_urban_areas", true, Keep::All)),
                ("lakes", source("ne_10m_lakes", true, Keep::All)),
                ("rivers", source("ne_10m_rivers_lake_centerlines", false, Keep::River)),
                ("admin1", source("ne_10m_admin_1_states_provinces_lines", false, Keep::State)),
                ("borders", source("ne_10m_admin_0_boundary_lines_land", false, Keep::All)),
            ];
            proof {
                assert(layer_views(layers@) =~= ten_layers());
                if i == 1 {
                    reveal_strlit("10m");
                    reveal_strlit("50m");
                    assert("50m"@[0] != "10m"@[0]);
                }
            }
            out.push(Plan { level, steps: 100, layers });
        } else if same_text(level.name, "50m") {
            let layers = vec![
                ("land", source("ne_50m_land", true, Keep::All)),
                ("lakes", source("ne_50m_lakes", true, Keep::All)),
                ("admin1", source("ne_50m_admin_1_states_provinces_lines", false, Keep::State)),
                ("borders", source("ne_50m_admin_0_boundary_lines_land", false, Keep::All)),
            ];
            proof {
                assert(layer_views(layers@) =~= fifty_layers());
                if i == 0 {
                    reveal_strlit("10m");
                    reveal_strlit("50m");
                    assert("50m"@[0] != "10m"@[0]);
                }
            }
            out.push(Plan { level, steps: 20, layers });
        } else {
            return Err(GenError::Level(level.name));
        }
        i += 1;
    }
    Ok(out)
}

/// Every layer name a plan writes is one the client reads.
pub proof fn law_plan_layers_known()
    ensures
        forall|i: int| 0 <= i < ten_layers().len() ==> #[trigger] layer_index(ten_layers()[i].0) is Some,
        forall|i: int| 0 <= i < fifty_layers().len() ==> #[trigger] layer_index(fifty_layers()[i].0) is Some,
{
    reveal_strlit("land");
    reveal_strlit("urban");
    reveal_strlit("lakes");
    reveal_strlit("rivers");
    reveal_strlit("admin1");
    reveal_strlit("borders");
    assert("land"@ =~= seq!['l', 'a', 'n', 'd']);
    assert("urban"@ =~= seq!['u', 'r', 'b', 'a', 'n']);
    assert("lakes"@ =~= seq!['l', 'a', 'k', 'e', 's']);
    assert("rivers"@ =~= seq!['r', 'i', 'v', 'e', 'r', 's']);
    assert("admin1"@ =~= seq!['a', 'd', 'm', 'i', 'n', '1']);
    assert("borders"@ =~= seq!['b', 'o', 'r', 'd', 'e', 'r', 's']);
}

/// Whether a layer's shapes are areas: land, urban areas and lakes.
pub open spec fn area_name(name: Seq<char>) -> bool {
    name == "land"@ || name == "urban"@ || name == "lakes"@
}

/// A plan cuts as rings exactly the layers the client closes: the areas
/// (land, urban areas, lakes) are rings, clipped to each cell they touch,
/// and the lines (rivers, state lines, borders) are cut where they leave a
/// cell.
pub proof fn law_plan_rings_are_areas()
    ensures
        forall|i: int|
            0 <= i < ten_layers().len() ==> #[trigger] ten_layers()[i].2 == area_name(ten_layers()[i].0),
        forall|i: int|
            0 <= i < fifty_layers().len() ==> #[trigger] fifty_layers()[i].2 == area_name(fifty_layers()[i].0),
        forall|i: int|
            0 <= i < ten_layers().len() ==> (#[trigger] layer_index(ten_layers()[i].0) matches Some(j) && ring_layer(j)
                == ten_layers()[i].2),
        forall|i: int|
            0 <= i < fifty_layers().len() ==> (#[trigger] layer_index(fifty_layers()[i].0) matches Some(j)
                && ring_layer(j) == fifty_layers()[i].2),
{
    law_plan_layers_known();
    reveal_strlit("land");
    reveal_strlit("urban");
    reveal_strlit("lakes");
    reveal_strlit("rivers");
    reveal_strlit("admin1");
    reveal_strlit("borders");
    assert("land"@ =~= seq!['l', 'a', 'n', 'd']);
    assert("urban"@ =~= seq!['u', 'r', 'b', 'a', 'n']);
    assert("lakes"@ =~= seq!['l', 'a', 'k', 'e', 's']);
    assert("rivers"@ =~= seq!['r', 'i', 'v', 'e', 'r', 's']);
    assert("admin1"@ =~= seq!['a', 'd', 'm', 'i', 'n', '1']);
    assert("borders"@ =~= seq!['b', 'o', 'r', 'd', 'e', 'r', 's']);
    assert("rivers"@[0] != "land"@[0] && "rivers"@[0] != "urban"@[0] && "rivers"@[0] != "lakes"@[0]);
    assert("admin1"@[0] != "land"@[0] && "admin1"@[0] != "urban"@[0] && "admin1"@[0] != "lakes"@[0]);
    assert("borders"@[0] != "land"@[0] && "borders"@[0] != "urban"@[0] && "borders"@[0] != "lakes"@[0]);
}

/// The polylines of the six layers after the sections of the cuts, each
/// cut's runs in one cell appended to the layer its name opens.
pub open spec fn cut_layers(cuts: Seq<CutView>, k: Key) -> Seq<Seq<Seq<Point>>>
    decreases cuts.len(),
{
    if cuts.len() == 0 {
        empty_cell().layers
    } else {
        let ls = cut_layers(cuts.drop_last(), k);
        match layer_index(cuts.last().name) {
            Some(i) => ls.update(i, ls[i] + runs_at(cuts.last().runs, k)),
            None => ls,
        }
    }
}

/// A town as the client reads it back.
pub open spec fn town_place(t: TownView) -> PlaceView {
    PlaceView { zoom: tenths_text(t.zoom as int), lon: t.lon, lat: t.lat, name: t.name }
}

/// The characters of polyline and town lines before the name: digits,
/// signs, commas, points, spaces and tabs.
pub open spec fn number_char(c: char) -> bool {
    is_digit(c) || c == '-' || c == ',' || c == '.' || c == ' ' || c == '\t'
}

proof fn lemma_line_text_chars(ps: Seq<Point>)
    ensures
        forall|i: int| 0 <= i < line_text(ps).len() ==> number_char(#[trigger] line_text(ps)[i]),
        ps.len() > 0 ==> line_text(ps).len() > 0 && line_text(ps)[0] != '=',
    decreases ps.len(),
{
    if ps.len() > 0 {
        let p = ps.last();
        lemma_decimal_plain(p.0 as int);
        lemma_decimal_plain(p.1 as int);
        let a = decimal(p.0 as int);
        let b = decimal(p.1 as int);
        let w = pair_text(p);
        assert forall|i: int| 0 <= i < w.len() implies number_char(#[trigger] w[i]) by {
            if i < a.len() {
                assert(w[i] == a[i]);
            } else if i > a.len() {
                assert(w[i] == b[i - a.len() - 1]);
            }
        }
        if ps.len() == 1 {
            assert(w[0] == a[0]);
        } else {
            lemma_line_text_chars(ps.drop_last());
            let l = line_text(ps.drop_last());
            let t = line_text(ps);
            assert(t == l + seq![' '] + w);
            assert forall|i: int| 0 <= i < t.len() implies number_char(#[trigger] t[i]) by {
                if i < l.len() {
                    assert(t[i] == l[i]);
                } else if i > l.len() {
                    assert(t[i] == w[i - l.len() - 1]);
                }
            }
            assert(t[0] == l[0]);
        }
    }
}

proof fn lemma_town_text_chars(t: TownView)
    ensures
        town_text(t).len() > 0,
        town_text(t)[0] != '=',
        plain_line(t.name) ==> plain_line(town_text(t)),
{
    let z = tenths_text(t.zoom as int);
    let a = decimal(t.lon as int);
    let b = decimal(t.lat as int);
    lemma_tenths_plain(t.zoom as int);
    lemma_decimal_plain(t.lon as int);
    lemma_decimal_plain(t.lat as int);
    let m = if t.zoom < 0 {
        -t.zoom
    } else {
        t.zoom as int
    };
    lemma_digits_plain((m / 10) as nat);
    let head = z + seq!['\t'] + a + seq!['\t'] + b + seq!['\t'];
    let s = town_text(t);
    assert(s == head + t.name);
    let sign: Seq<char> = if t.zoom < 0 {
        seq!['-']
    } else {
        seq![]
    };
    let d = digits_of((m / 10) as nat);
    assert forall|i: int| 0 <= i < z.len() implies #[trigger] z[i] != '\n' && z[i] != '\r' by {
        if i < sign.len() {
            assert(z[i] == '-');
        } else if i < sign.len() + d.len() {
            assert(z[i] == d[i - sign.len()]);
            assert(is_digit(d[i - sign.len()]));
        } else if i == sign.len() + d.len() {
            assert(z[i] == '.');
        } else {
            assert(z[i] == digit_char(m % 10));
        }
    }
    assert(z[0] != '=') by {
        if sign.len() > 0 {
            assert(z[0] == '-');
        } else {
            assert(z[0] == d[0]);
            assert(is_digit(d[0]));
        }
    }
    assert forall|i: int| 0 <= i < head.len() implies #[trigger] head[i] != '\n' by {
        let z1 = z.len() as int;
        let a1 = z1 + 1 + a.len();
        if i < z1 {
            assert(head[i] == z[i]);
        } else if i == z1 {
        } else if i < a1 {
            assert(head[i] == a[i - z1 - 1]);
        } else if i == a1 {
        } else if i < a1 + 1 + b.len() {
            assert(head[i] == b[i - a1 - 1]);
        }
    }
    assert(s[0] == z[0]);
    if plain_line(t.name) {
        assert forall|i: int| 0 <= i < s.len() implies s[i] != '\n' by {
            if i < head.len() {
                assert(s[i] == head[i]);
            } else {
                assert(s[i] == t.name[i - head.len()]);
            }
        }
        if t.name.len() > 0 {
            assert(s.last() == t.name.last());
        } else {
            assert(s.last() == '\t');
        }
    }
}

/// The runs of one layer's section read onto a reading in that section.
proof fn lemma_read_runs(r: Reading, name: Seq<char>, i: int, runs: Seq<Seq<Point>>)
    requires
        r.section == Some(name),
        layer_index(name) == Some(i),
        r.cell.layers.len() == 6,
        forall|j: int| 0 <= j < runs.len() ==> (#[trigger] runs[j]).len() > 0,
    ensures
        read_from(r, runs.map_values(|q: Seq<Point>| line_text(q))) == Some(
            Reading {
                section: r.section,
                cell: CellView {
                    layers: r.cell.layers.update(i, r.cell.layers[i] + runs),
                    places: r.cell.places,
                },
            },
        ),
    decreases runs.len(),
{
    let texts = runs.map_values(|q: Seq<Point>| line_text(q));
    if runs.len() == 0 {
        assert(r.cell.layers.update(i, r.cell.layers[i] + runs) =~= r.cell.layers);
    } else {
        let front = runs.drop_last();
        assert(texts.drop_last() =~= front.map_values(|q: Seq<Point>| line_text(q)));
        lemma_read_runs(r, name, i, front);
        let q = runs.last();
        assert(q.len() > 0);
        lemma_line_text_chars(q);
        law_line_round_trip(q);
        assert(texts.last() == line_text(q));
        reveal_strlit("places");
        assert(name != places_name()) by {
            if name == places_name() {
                assert(layer_index(places_name()) is None);
            }
        }
        lemma_layer_index_name(name);
        let mid = r.cell.layers.update(i, r.cell.layers[i] + front);
        assert(runs == front.push(q));
        assert((r.cell.layers[i] + front).push(q) =~= r.cell.layers[i] + runs);
        assert(mid[i] == r.cell.layers[i] + front);
        assert(mid.update(i, mid[i].push(q)) =~= r.cell.layers.update(i, r.cell.layers[i] + runs));
    }
}

/// The towns of the places section read onto a reading in that section.
proof fn lemma_read_towns(r: Reading, towns: Seq<TownView>)
    requires
        r.section == Some(places_name()),
    ensures
        read_from(r, towns.map_values(|t: TownView| town_text(t))) == Some(
            Reading {
                section: r.section,
                cell: CellView {
                    layers: r.cell.layers,
                    places: r.cell.places + towns.map_values(|t: TownView| town_place(t)),
                },
            },
        ),
    decreases towns.len(),
{
    let texts = towns.map_values(|t: TownView| town_text(t));
    if towns.len() == 0 {
        assert(r.cell.places + towns.map_values(|t: TownView| town_place(t)) =~= r.cell.places);
    } else {
        let front = towns.drop_last();
        assert(texts.drop_last() =~= front.map_values(|t: TownView| town_text(t)));
        lemma_read_towns(r, front);
        let t = towns.last();
        lemma_town_text_chars(t);
        law_place_round_trip(t.zoom as int, t.lon, t.lat, t.name);
        assert(texts.last() == town_text(t));
        assert((r.cell.places + front.map_values(|t: TownView| town_place(t))).push(town_place(t))
            =~= r.cell.places + towns.map_values(|t: TownView| town_place(t)));
    }
}

proof fn lemma_layer_name_plain(i: int)
    requires
        0 <= i < 6,
    ensures
        plain_line(seq!['='] + layer_name(i)),
        plain_line(seq!['='] + places_name()),
{
    let l = seq!['='] + layer_name(i);
    assert forall|j: int| 0 <= j < l.len() implies l[j] != '\n' by {
        if j > 0 {
            assert(l[j] == layer_name(i)[j - 1]);
        }
    }
    assert(l.last() == layer_name(i).last());
    let p = seq!['='] + places_name();
    assert forall|j: int| 0 <= j < p.len() implies p[j] != '\n' by {
        if j > 0 {
            assert(p[j] == places_name()[j - 1]);
        }
    }
    assert(p.last() == places_name().last());
}

proof fn lemma_layer_index_name(name: Seq<char>)
    requires
        layer_index(name) is Some,
    ensures
        0 <= layer_index(name)->0 < 6,
        name == layer_name(layer_index(name)->0),
{
}

/// The lines of the layer sections of one cell: all plain, and read in
/// order they give the layers the cuts put there.
proof fn lemma_read_cuts(cuts: Seq<CutView>, k: Key)
    requires
        forall|j: int| 0 <= j < cuts.len() ==> layer_index(#[trigger] cuts[j].name) is Some,
        forall|j: int, i: int|
            0 <= j < cuts.len() && 0 <= i < cuts[j].runs.len() ==> (#[trigger] cuts[j].runs[i]).1.len() > 0,
    ensures
        forall|i: int| 0 <= i < cuts_lines(cuts, k).len() ==> plain_line(#[trigger] cuts_lines(cuts, k)[i]),
        read_from(start_reading(), cuts_lines(cuts, k)) matches Some(r) && r.cell == (CellView {
            layers: cut_layers(cuts, k),
            places: seq![],
        }),
        cut_layers(cuts, k).len() == 6,
    decreases cuts.len(),
{
    if cuts.len() == 0 {
        assert(empty_cell().layers.len() == 6);
    } else {
        let front = cuts.drop_last();
        assert forall|j: int| 0 <= j < front.len() implies layer_index(#[trigger] front[j].name) is Some by {
            assert(front[j] == cuts[j]);
        }
        assert forall|j: int, i: int|
            0 <= j < front.len() && 0 <= i < front[j].runs.len() implies (#[trigger] front[j].runs[i]).1.len() > 0 by {
            assert(front[j] == cuts[j]);
        }
        lemma_read_cuts(front, k);
        let c = cuts.last();
        assert(layer_index(cuts[cuts.len() - 1].name) is Some);
        lemma_layer_index_name(c.name);
        let li = layer_index(c.name)->0;
        let rs = runs_at(c.runs, k);
        lemma_runs_at_nonempty(c.runs, k);
        assert forall|i: int| 0 <= i < c.runs.len() implies (#[trigger] c.runs[i]).1.len() > 0 by {
            assert(cuts[cuts.len() - 1].runs[i].1.len() > 0);
        }
        let texts = rs.map_values(|q: Seq<Point>| line_text(q));
        let sec = section(c.name, texts);
        let before = cuts_lines(front, k);
        lemma_read_from_add(start_reading(), before, sec);
        let r1 = read_from(start_reading(), before)->0;
        lemma_layer_name_plain(li);
        if rs.len() == 0 {
            assert(sec == Seq::<Seq<char>>::empty());
            assert(cuts_lines(cuts, k) == before + sec);
            assert(before + sec =~= before);
            assert(cut_layers(cuts, k) =~= cut_layers(front, k));
        } else {
            let header = seq!['='] + c.name;
            assert(sec == seq![header] + texts);
            lemma_read_from_add(r1, seq![header], texts);
            assert(seq![header].drop_last() =~= Seq::<Seq<char>>::empty());
            assert(header[0] == '=');
            assert(header.drop_first() =~= c.name);
            let r2 = Reading { section: Some(c.name), cell: r1.cell };
            assert(read_from(r1, Seq::<Seq<char>>::empty()) == Some(r1));
            assert(seq![header].last() == header);
            assert(step(r1, header) == Some(r2));
            assert(read_from(r1, seq![header]) == Some(r2));
            lemma_read_runs(r2, c.name, li, rs);
            assert forall|i: int| 0 <= i < cuts_lines(cuts, k).len() implies plain_line(#[trigger] cuts_lines(cuts, k)[i]) by {
                let all = cuts_lines(cuts, k);
                assert(all == before + sec);
                if i < before.len() {
                    assert(all[i] == before[i]);
                } else if i == before.len() {
                    assert(all[i] == header);
                } else {
                    let j = i - before.len() - 1;
                    assert(all[i] == texts[j]);
                    lemma_line_text_chars(rs[j]);
                    let t = line_text(rs[j]);
                    assert forall|x: int| 0 <= x < t.len() implies t[x] != '\n' by {
                        assert(number_char(t[x]));
                    }
                    assert(number_char(t[t.len() - 1]));
                }
            }
        }
    }
}


proof fn lemma_runs_at_nonempty(runs: Seq<(Key, Seq<Point>)>, k: Key)
    requires
        forall|i: int| 0 <= i < runs.len() ==> (#[trigger] runs[i]).1.len() > 0,
    ensures
        forall|j: int| 0 <= j < runs_at(runs, k).len() ==> (#[trigger] runs_at(runs, k)[j]).len() > 0,
    decreases runs.len(),
{
    if runs.len() > 0 {
        let front = runs.drop_last();
        assert forall|i: int| 0 <= i < front.len() implies (#[trigger] front[i]).1.len() > 0 by {
            assert(front[i] == runs[i]);
        }
        lemma_runs_at_nonempty(front, k);
        let r = runs_at(runs, k);
        assert forall|j: int| 0 <= j < r.len() implies (#[trigger] r[j]).len() > 0 by {
            if j < runs_at(front, k).len() {
                assert(r[j] == runs_at(front, k)[j]);
            } else {
                assert(runs[runs.len() - 1].1.len() > 0);
            }
        }
    }
}

proof fn lemma_towns_at_plain(towns: Seq<TownView>, deg: int, k: Key)
    requires
        forall|i: int| 0 <= i < towns.len() ==> plain_line(#[trigger] towns[i].name),
    ensures
        forall|j: int| 0 <= j < towns_at(towns, deg, k).len() ==> plain_line(#[trigger] towns_at(towns, deg, k)[j].name),
    decreases towns.len(),
{
    if towns.len() > 0 {
        let front = towns.drop_last();
        assert forall|i: int| 0 <= i < front.len() implies plain_line(#[trigger] front[i].name) by {
            assert(front[i] == towns[i]);
        }
        lemma_towns_at_plain(front, deg, k);
        let r = towns_at(towns, deg, k);
        assert forall|j: int| 0 <= j < r.len() implies plain_line(#[trigger] r[j].name) by {
            if j < towns_at(front, deg, k).len() {
                assert(r[j] == towns_at(front, deg, k)[j]);
            } else {
                assert(plain_line(towns[towns.len() - 1].name));
            }
        }
    }
}

/// What the generator writes for a cell the client reads back as the same
/// cell: each layer holds the runs of the cuts named after it, in order,
/// and the towns come back with the text of their zoom. This holds when
/// every cut names a layer the client reads, every run has a point, and no
/// town name holds a line end.
pub proof fn law_cell_file_round_trip(deg: int, cuts: Seq<CutView>, towns: Seq<TownView>, k: Key)
    requires
        forall|j: int| 0 <= j < cuts.len() ==> layer_index(#[trigger] cuts[j].name) is Some,
        forall|j: int, i: int|
            0 <= j < cuts.len() && 0 <= i < cuts[j].runs.len() ==> (#[trigger] cuts[j].runs[i]).1.len() > 0,
        forall|i: int| 0 <= i < towns.len() ==> plain_line(#[trigger] towns[i].name),
    ensures
        cell_of(file_text_of(file_lines(deg, cuts, towns, k))) == Some(
            CellView {
                layers: cut_layers(cuts, k),
                places: towns_at(towns, deg, k).map_values(|t: TownView| town_place(t)),
            },
        ),
{
    lemma_read_cuts(cuts, k);
    let before = cuts_lines(cuts, k);
    let here = towns_at(towns, deg, k);
    let texts = here.map_values(|t: TownView| town_text(t));
    let sec = section(places_name(), texts);
    let all = file_lines(deg, cuts, towns, k);
    assert(all == before + sec);
    lemma_towns_at_plain(towns, deg, k);
    lemma_layer_name_plain(0);
    let r1 = read_from(start_reading(), before)->0;
    lemma_read_from_add(start_reading(), before, sec);
    if here.len() == 0 {
        assert(sec == Seq::<Seq<char>>::empty());
        assert(all =~= before);
        assert(here.map_values(|t: TownView| town_place(t)) =~= Seq::<PlaceView>::empty());
    } else {
        let header = seq!['='] + places_name();
        assert(sec == seq![header] + texts);
        lemma_read_from_add(r1, seq![header], texts);
        assert(seq![header].drop_last() =~= Seq::<Seq<char>>::empty());
        assert(header.drop_first() =~= places_name());
        let r2 = Reading { section: Some(places_name()), cell: r1.cell };
        assert(read_from(r1, Seq::<Seq<char>>::empty()) == Some(r1));
        assert(seq![header].last() == header);
        assert(step(r1, header) == Some(r2));
        assert(read_from(r1, seq![header]) == Some(r2));
        lemma_read_towns(r2, here);
        assert(Seq::<PlaceView>::empty() + here.map_values(|t: TownView| town_place(t)) =~= here.map_values(|t: TownView| town_place(t)));
    }
    assert forall|i: int| 0 <= i < all.len() implies plain_line(#[trigger] all[i]) by {
        if i < before.len() {
            assert(all[i] == before[i]);
        } else if i == before.len() {
            assert(all[i] == seq!['='] + places_name());
        } else {
            let j = i - before.len() - 1;
            assert(all[i] == texts[j]);
            lemma_town_text_chars(here[j]);
        }
    }
    law_file_lines(all);
    lemma_read_lines_from(all);
}

/// A point of the embedded base, which is cut at a tenth of a degree: both
/// numbers with one decimal.
pub open spec fn base_pair_text(p: Point) -> Seq<char> {
    tenths_text(p.0 / 10) + seq![','] + tenths_text(p.1 / 10)
}

pub open spec fn base_line_text(ps: Seq<Point>) -> Seq<char>
    decreases ps.len(),
{
    if ps.len() == 0 {
        seq![]
    } else if ps.len() == 1 {
        base_pair_text(ps[0])
    } else {
        base_line_text(ps.drop_last()) + seq![' '] + base_pair_text(ps.last())
    }
}

/// The lines of a base file: every polyline of three points or more.
pub open spec fn base_lines_of(ls: Seq<Seq<Point>>) -> Seq<Seq<char>>
    decreases ls.len(),
{
    if ls.len() == 0 {
        seq![]
    } else if ls.last().len() >= 3 {
        base_lines_of(ls.drop_last()).push(base_line_text(ls.last()))
    } else {
        base_lines_of(ls.drop_last())
    }
}

/// A town of the base: zoom with one decimal, longitude and latitude with
/// two, and the name, tab separated.
pub open spec fn base_town_text(t: TownView) -> Seq<char> {
    tenths_text(t.zoom as int) + seq!['\t'] + hundredths_text(t.lon as int) + seq!['\t']
        + hundredths_text(t.lat as int) + seq!['\t'] + t.name
}

/// The towns of the base: those of a zoom at most `cut`, in order.
pub open spec fn base_towns_of(ts: Seq<TownView>, cut: int) -> Seq<Seq<char>>
    decreases ts.len(),
{
    if ts.len() == 0 {
        seq![]
    } else if ts.last().zoom <= cut {
        base_towns_of(ts.drop_last(), cut).push(base_town_text(ts.last()))
    } else {
        base_towns_of(ts.drop_last(), cut)
    }
}

fn base_line(points: &[Point]) -> (r: String)
    ensures
        r@ == base_line_text(points@),
{
    let mut out: Vec<char> = Vec::new();
    let mut i: usize = 0;
    proof {
        assert(points@.take(0) =~= Seq::<Point>::empty());
    }
    while i < points.len()
        invariant
            i <= points@.len(),
            out@ == base_line_text(points@.take(i as int)),
        decreases points@.len() - i,
    {
        if i > 0 {
            out.push(' ');
        }
        let (lon, lat) = points[i];
        push_fixed(&mut out, lon / 10 - if lon % 10 < 0 { 1 } else { 0 }, 1);
        out.push(',');
        push_fixed(&mut out, lat / 10 - if lat % 10 < 0 { 1 } else { 0 }, 1);
        proof {
            let t = points@.take(i + 1);
            assert(t.drop_last() == points@.take(i as int));
            assert(t.last() == (lon, lat));
            if i == 0 {
                assert(out@ =~= base_pair_text((lon, lat)));
            } else {
                assert(out@ =~= base_line_text(points@.take(i as int)) + seq![' '] + base_pair_text((lon, lat)));
            }
        }
        i += 1;
    }
    proof {
        assert(points@.take(points@.len() as int) == points@);
    }
    string_of(out.as_slice())
}

/// The lines of a base layer: each polyline of three points or more, with
/// its points at one decimal.
pub fn base_lines(polylines: &[Vec<Point>]) -> (r: Vec<String>)
    ensures
        strings_view(r@) == base_lines_of(lines_view(polylines@)),
{
    let ghost ls = lines_view(polylines@);
    let mut out: Vec<String> = Vec::new();
    let mut i: usize = 0;
    proof {
        assert(ls.take(0) =~= Seq::<Seq<Point>>::empty());
        assert(strings_view(out@) =~= Seq::<Seq<char>>::empty());
    }
    while i < polylines.len()
        invariant
            i <= ls.len(),
            ls == lines_view(polylines@),
            strings_view(out@) == base_lines_of(ls.take(i as int)),
        decreases ls.len() - i,
    {
        proof {
            assert(ls.take(i + 1).drop_last() == ls.take(i as int));
            assert(ls.take(i + 1).last() == polylines@[i as int]@);
        }
        if polylines[i].len() >= 3 {
            let ghost before = strings_view(out@);
            let text = base_line(polylines[i].as_slice());
            out.push(text);
            proof {
                assert(strings_view(out@) =~= before.push(base_line_text(polylines@[i as int]@)));
            }
        }
        i += 1;
    }
    proof {
        assert(ls.take(ls.len() as int) == ls);
    }
    out
}

/// The town lines of the base: the towns of a zoom at most `cut`, whose
/// labels the base serves alone.
pub fn base_places(towns: &[Town], cut: i64) -> (r: Vec<String>)
    ensures
        strings_view(r@) == base_towns_of(towns_view(towns@), cut as int),
{
    let ghost ts = towns_view(towns@);
    let mut out: Vec<String> = Vec::new();
    let mut i: usize = 0;
    proof {
        assert(ts.take(0) =~= Seq::<TownView>::empty());
        assert(strings_view(out@) =~= Seq::<Seq<char>>::empty());
    }
    while i < towns.len()
        invariant
            i <= ts.len(),
            ts == towns_view(towns@),
            strings_view(out@) == base_towns_of(ts.take(i as int), cut as int),
        decreases ts.len() - i,
    {
        let t = &towns[i];
        proof {
            assert(ts.take(i + 1).drop_last() == ts.take(i as int));
            assert(ts.take(i + 1).last() == t@);
        }
        if t.zoom <= cut {
            let mut text: Vec<char> = Vec::new();
            push_fixed(&mut text, t.zoom, 1);
            text.push('\t');
            push_fixed(&mut text, t.lon, 2);
            text.push('\t');
            push_fixed(&mut text, t.lat, 2);
            text.push('\t');
            push_str(&mut text, t.name.as_str());
            proof {
                assert(text@ =~= base_town_text(t@));
            }
            let ghost before = strings_view(out@);
            let line = string_of(text.as_slice());
            out.push(line);
            proof {
                assert(strings_view(out@) =~= before.push(base_town_text(t@)));
            }
        }
        i += 1;
    }
    proof {
        assert(ts.take(ts.len() as int) == ts);
    }
    out
}

} // verus!
