//! Characters, lines, words and numbers of the cell files.
use vstd::prelude::*;
use vstd::slice::{slice_subrange, slice_to_vec};

verus! {

/// The characters of a string, in order.
pub fn chars_of(s: &str) -> (r: Vec<char>)
    ensures
        r@ == s@,
{
    let mut out: Vec<char> = Vec::new();
    for c in it: s.chars()
        invariant
            out@ == it.seq().take(it.index() as int),
            it.seq() == s@,
    {
        out.push(c);
    }
    out
}

/// Builds a string from its characters with `FromIterator<&char>` of std,
/// which the std documentation describes as collecting the characters in
/// order; the contract claims exactly that.
#[verifier::external_body]
pub(crate) fn string_of(chars: &[char]) -> (r: String)
    ensures
        r@ == chars@,
{
    chars.iter().collect()
}

pub open spec fn is_digit(c: char) -> bool {
    '0' <= c && c <= '9'
}

pub open spec fn digit_value(c: char) -> int {
    c as int - '0' as int
}

pub open spec fn digit_char(d: int) -> char {
    (d + '0' as int) as char
}

/// The value of a run of decimal digits.
pub open spec fn digits_value(s: Seq<char>) -> int
    decreases s.len(),
{
    if s.len() == 0 {
        0
    } else {
        digits_value(s.drop_last()) * 10 + digit_value(s.last())
    }
}

pub open spec fn all_digits(s: Seq<char>) -> bool {
    forall|i: int| 0 <= i < s.len() ==> #[trigger] is_digit(s[i])
}

/// An optionally signed run of at least one decimal digit and its value,
/// the grammar that `str::parse` accepts for the integer types.
pub open spec fn int_text(s: Seq<char>) -> Option<int> {
    if s.len() > 0 && (s[0] == '-' || s[0] == '+') {
        let d = s.drop_first();
        if d.len() > 0 && all_digits(d) {
            Some(if s[0] == '-' { -digits_value(d) } else { digits_value(d) })
        } else {
            None
        }
    } else if s.len() > 0 && all_digits(s) {
        Some(digits_value(s))
    } else {
        None
    }
}

/// What `s.parse::<i64>().ok()` gives.
pub open spec fn int_of(s: Seq<char>) -> Option<i64> {
    match int_text(s) {
        Some(v) => if i64::MIN <= v <= i64::MAX {
            Some(v as i64)
        } else {
            None
        },
        None => None,
    }
}

/// Whether `c` is the lower case letter `lower` in either case.
pub open spec fn letter_ci(c: char, lower: char) -> bool {
    c == lower || c as u32 + 32 == lower as u32
}

/// Whether `s` spells `word`, a word of lower case letters, in any case.
pub open spec fn word_ci(s: Seq<char>, word: Seq<char>) -> bool {
    s.len() == word.len() && forall|i: int| 0 <= i < s.len() ==> letter_ci(#[trigger] s[i], word[i])
}

/// Digits with at most one `.` among them, at least one digit in all.
pub open spec fn mantissa_text(s: Seq<char>) -> bool {
    let d = first_index(s, '.');
    if d >= s.len() {
        s.len() > 0 && all_digits(s)
    } else {
        s.len() > 1 && all_digits(s.take(d)) && all_digits(s.skip(d + 1))
    }
}

/// An optionally signed run of at least one digit.
pub open spec fn exponent_text(s: Seq<char>) -> bool {
    let t = if s.len() > 0 && (s[0] == '+' || s[0] == '-') {
        s.drop_first()
    } else {
        s
    };
    t.len() > 0 && all_digits(t)
}

/// A decimal number with an optional exponent after `e` or `E`.
pub open spec fn number_text(s: Seq<char>) -> bool {
    let e = first_index(s, 'e');
    let ee = first_index(s, 'E');
    let x = if e < ee {
        e
    } else {
        ee
    };
    if x >= s.len() {
        mantissa_text(s)
    } else {
        mantissa_text(s.take(x)) && exponent_text(s.skip(x + 1))
    }
}

/// The grammar that `str::parse` accepts for the float types: an optional
/// sign, then `inf`, `infinity` or `nan` in any case, or a decimal number.
pub open spec fn float_text(s: Seq<char>) -> bool {
    let t = if s.len() > 0 && (s[0] == '+' || s[0] == '-') {
        s.drop_first()
    } else {
        s
    };
    word_ci(t, "inf"@) || word_ci(t, "infinity"@) || word_ci(t, "nan"@) || number_text(t)
}

/// The decimal digits of a natural number, most significant first, no
/// leading zero.
pub open spec fn digits_of(n: nat) -> Seq<char>
    decreases n,
{
    if n < 10 {
        seq![digit_char(n as int)]
    } else {
        digits_of(n / 10).push(digit_char((n % 10) as int))
    }
}

/// How `Display` writes an integer: a minus sign for negatives, then its
/// digits.
pub open spec fn decimal(v: int) -> Seq<char> {
    if v < 0 {
        seq!['-'] + digits_of((-v) as nat)
    } else {
        digits_of(v as nat)
    }
}

proof fn lemma_digits_of(n: nat)
    ensures
        digits_of(n).len() > 0,
        all_digits(digits_of(n)),
        digits_value(digits_of(n)) == n,
    decreases n,
{
    let s = digits_of(n);
    if n < 10 {
        assert(s.drop_last() =~= Seq::<char>::empty());
        assert(digits_value(Seq::<char>::empty()) == 0);
        assert(digit_value(digit_char(n as int)) == n);
    } else {
        lemma_digits_of(n / 10);
        assert(s.drop_last() == digits_of(n / 10));
        assert(digit_value(digit_char((n % 10) as int)) == n % 10);
        assert((n / 10) * 10 + n % 10 == n);
        assert forall|i: int| 0 <= i < s.len() implies #[trigger] is_digit(s[i]) by {
            if i < s.len() - 1 {
                assert(s[i] == digits_of(n / 10)[i]);
            }
        }
    }
}

/// Parsing what `decimal` writes gives the number back.
pub proof fn lemma_int_text_decimal(v: int)
    ensures
        int_text(decimal(v)) == Some(v),
{
    if v < 0 {
        lemma_digits_of((-v) as nat);
        let s = decimal(v);
        assert(s[0] == '-');
        assert(s.drop_first() == digits_of((-v) as nat));
    } else {
        lemma_digits_of(v as nat);
        assert(is_digit(decimal(v)[0]));
    }
}

proof fn lemma_digits_value_grows(s: Seq<char>, k: int)
    requires
        0 <= k <= s.len(),
        all_digits(s),
    ensures
        digits_value(s.take(k)) <= digits_value(s),
        0 <= digits_value(s.take(k)),
    decreases s.len() - k,
{
    if k < s.len() {
        lemma_digits_value_grows(s, k + 1);
        assert(s.take(k + 1).drop_last() == s.take(k));
        assert(is_digit(s[k]));
    } else {
        assert(s.take(k) == s);
        lemma_digits_value_nonneg(s);
    }
}

proof fn lemma_digits_value_nonneg(s: Seq<char>)
    requires
        all_digits(s),
    ensures
        0 <= digits_value(s),
    decreases s.len(),
{
    if s.len() > 0 {
        assert(is_digit(s[s.len() - 1]));
        assert forall|i: int| 0 <= i < s.drop_last().len() implies #[trigger] is_digit(
            s.drop_last()[i],
        ) by {
            assert(is_digit(s[i]));
        }
        lemma_digits_value_nonneg(s.drop_last());
    }
}

/// `s.parse::<i64>().ok()`: an optional sign and at least one decimal digit,
/// within the range of `i64`.
pub fn parse_int(s: &[char]) -> (r: Option<i64>)
    ensures
        r == int_of(s@),
{
    let n = s.len();
    if n == 0 {
        return None;
    }
    let neg = s[0] == '-';
    let start: usize = if s[0] == '-' || s[0] == '+' { 1 } else { 0 };
    if start == n {
        return None;
    }
    let ghost d = s@.skip(start as int);
    proof {
        if start == 0 {
            assert(d =~= s@);
        } else {
            assert(d =~= s@.drop_first());
        }
    }
    let mut acc: u64 = 0;
    let mut i: usize = start;
    while i < n
        invariant
            start <= i <= n,
            n == s@.len(),
            d == s@.skip(start as int),
            start == 0 || start == 1,
            start == 1 <==> (s@[0] == '-' || s@[0] == '+'),
            start == 1 ==> d == s@.drop_first(),
            start == 0 ==> d == s@,
            neg == (s@[0] == '-'),
            acc <= 0x8000_0000_0000_0000u64,
            all_digits(d.take(i - start)),
            acc == digits_value(d.take(i - start)),
        decreases n - i,
    {
        let c = s[i];
        if !('0' <= c && c <= '9') {
            proof {
                assert(d[i - start] == c);
                assert(!is_digit(d[i - start]));
                assert(!all_digits(d));
            }
            return None;
        }
        let v: u64 = (c as u32 - '0' as u32) as u64;
        proof {
            assert(d.take(i - start + 1).drop_last() == d.take(i - start));
            assert(d.take(i - start + 1).last() == c);
        }
        if acc > (0x8000_0000_0000_0000u64 - v) / 10 {
            proof {
                assert(acc * 10 + v > 0x8000_0000_0000_0000);
                assert(digits_value(d.take(i - start + 1)) > 0x8000_0000_0000_0000);
                assert forall|j: int| 0 <= j < d.take(i - start + 1).len() implies #[trigger] is_digit(
                    d.take(i - start + 1)[j],
                ) by {
                    if j < i - start {
                        assert(d.take(i - start + 1)[j] == d.take(i - start)[j]);
                    }
                }
                if all_digits(d) {
                    lemma_digits_value_grows(d, i - start + 1);
                    assert(digits_value(d) > 0x8000_0000_0000_0000);
                    assert(int_text(s@) is None || int_text(s@)->0 > 0x8000_0000_0000_0000 || int_text(s@)->0 < -0x8000_0000_0000_0000);
                    assert(int_of(s@) is None);
                } else {
                    assert(int_text(s@) is None);
                }
            }
            return None;
        }
        acc = acc * 10 + v;
        i += 1;
        proof {
            assert forall|j: int| 0 <= j < d.take(i - start).len() implies #[trigger] is_digit(
                d.take(i - start)[j],
            ) by {
                if j < i - start - 1 {
                    assert(d.take(i - start)[j] == d.take(i - start - 1)[j]);
                }
            }
        }
    }
    proof {
        assert(d.take(n - start) == d);
        if start == 1 {
            assert(d == s@.drop_first());
        } else {
            assert(d == s@);
        }
    }
    if neg {
        if acc == 0x8000_0000_0000_0000u64 {
            Some(i64::MIN)
        } else {
            Some(-(acc as i64))
        }
    } else if acc > 0x7fff_ffff_ffff_ffffu64 {
        None
    } else {
        Some(acc as i64)
    }
}

fn push_digits(out: &mut Vec<char>, n: u128)
    ensures
        final(out)@ == old(out)@ + digits_of(n as nat),
    decreases n,
{
    if n >= 10 {
        push_digits(out, n / 10);
    }
    let d = (n % 10) as u8;
    let c = (48u8 + d) as char;
    proof {
        assert(c == digit_char((n % 10) as int));
    }
    out.push(c);
    proof {
        if n >= 10 {
            assert(digits_of(n as nat) == digits_of((n / 10) as nat).push(c));
        } else {
            assert(digits_of(n as nat) == seq![c]);
        }
    }
}

/// Appends the decimal text of `v`, as `Display` writes it.
pub fn push_decimal(out: &mut Vec<char>, v: i128)
    ensures
        final(out)@ == old(out)@ + decimal(v as int),
{
    if v < 0 {
        out.push('-');
        let m: u128 = ((-(v + 1)) as u128) + 1;
        push_digits(out, m);
    } else {
        push_digits(out, v as u128);
    }
}

/// The index of the first `c` in `s`, or the length of `s` when there is none.
pub open spec fn first_index(s: Seq<char>, c: char) -> int
    decreases s.len(),
{
    if s.len() == 0 {
        0
    } else if s[0] == c {
        0
    } else {
        1 + first_index(s.drop_first(), c)
    }
}

pub proof fn lemma_first_index(s: Seq<char>, c: char)
    ensures
        0 <= first_index(s, c) <= s.len(),
        first_index(s, c) < s.len() ==> s[first_index(s, c)] == c,
        forall|j: int| 0 <= j < first_index(s, c) ==> s[j] != c,
    decreases s.len(),
{
    if s.len() > 0 && s[0] != c {
        lemma_first_index(s.drop_first(), c);
        assert forall|j: int| 0 <= j < first_index(s, c) implies s[j] != c by {
            if j > 0 {
                assert(s[j] == s.drop_first()[j - 1]);
            }
        }
    }
}

/// The position of the first `c` at or after `from`, or the length of `s`.
pub fn find(s: &[char], from: usize, c: char) -> (r: usize)
    requires
        from <= s@.len(),
    ensures
        r == from + first_index(s@.skip(from as int), c),
        from <= r <= s@.len(),
{
    proof {
        lemma_first_index(s@.skip(from as int), c);
    }
    let n = s.len();
    let mut i = from;
    while i < n
        invariant
            from <= i <= n,
            n == s@.len(),
            first_index(s@.skip(from as int), c) == (i - from) + first_index(s@.skip(i as int), c),
        decreases n - i,
    {
        if s[i] == c {
            return i;
        }
        proof {
            assert(s@.skip(i as int).drop_first() == s@.skip(i + 1));
        }
        i += 1;
    }
    i
}

fn digits_only(s: &[char]) -> (r: bool)
    ensures
        r == all_digits(s@),
{
    let mut i: usize = 0;
    while i < s.len()
        invariant
            i <= s@.len(),
            forall|j: int| 0 <= j < i ==> #[trigger] is_digit(s@[j]),
        decreases s@.len() - i,
    {
        if !('0' <= s[i] && s[i] <= '9') {
            proof {
                assert(!is_digit(s@[i as int]));
            }
            return false;
        }
        i += 1;
    }
    true
}

fn spells_ci(s: &[char], word: &[char]) -> (r: bool)
    ensures
        r == word_ci(s@, word@),
{
    if s.len() != word.len() {
        return false;
    }
    let mut i: usize = 0;
    while i < s.len()
        invariant
            i <= s@.len(),
            s@.len() == word@.len(),
            forall|j: int| 0 <= j < i ==> letter_ci(#[trigger] s@[j], word@[j]),
        decreases s@.len() - i,
    {
        let c = s[i];
        let w = word[i];
        if !(c == w || (w as u32 >= 32 && c as u32 == w as u32 - 32)) {
            proof {
                assert(!letter_ci(s@[i as int], word@[i as int]));
            }
            return false;
        }
        i += 1;
    }
    true
}

fn mantissa(s: &[char]) -> (r: bool)
    ensures
        r == mantissa_text(s@),
{
    let n = s.len();
    let d = find(s, 0, '.');
    proof {
        assert(s@.skip(0) == s@);
    }
    if d == n {
        n > 0 && digits_only(s)
    } else {
        let a = chars_between(s, 0, d);
        let b = chars_between(s, d + 1, n);
        proof {
            assert(a@ == s@.take(d as int));
            assert(b@ == s@.skip(d + 1));
        }
        n > 1 && digits_only(a.as_slice()) && digits_only(b.as_slice())
    }
}

fn exponent(s: &[char]) -> (r: bool)
    ensures
        r == exponent_text(s@),
{
    let n = s.len();
    if n > 0 && (s[0] == '+' || s[0] == '-') {
        let t = chars_between(s, 1, n);
        proof {
            assert(t@ == s@.drop_first());
        }
        t.len() > 0 && digits_only(t.as_slice())
    } else {
        n > 0 && digits_only(s)
    }
}

fn number(s: &[char]) -> (r: bool)
    ensures
        r == number_text(s@),
{
    let n = s.len();
    let e = find(s, 0, 'e');
    let ee = find(s, 0, 'E');
    proof {
        assert(s@.skip(0) == s@);
    }
    let x = if e < ee {
        e
    } else {
        ee
    };
    if x == n {
        mantissa(s)
    } else {
        let a = chars_between(s, 0, x);
        let b = chars_between(s, x + 1, n);
        proof {
            assert(a@ == s@.take(x as int));
            assert(b@ == s@.skip(x + 1));
        }
        mantissa(a.as_slice()) && exponent(b.as_slice())
    }
}

/// Whether `s` is a float as `str::parse` reads one.
pub fn is_float(s: &[char]) -> (r: bool)
    ensures
        r == float_text(s@),
{
    let n = s.len();
    let t = if n > 0 && (s[0] == '+' || s[0] == '-') {
        chars_between(s, 1, n)
    } else {
        chars_between(s, 0, n)
    };
    proof {
        assert(s@.subrange(0, n as int) == s@);
        assert(n > 0 ==> s@.subrange(1, n as int) == s@.drop_first());
        reveal_strlit("inf");
        reveal_strlit("infinity");
        reveal_strlit("nan");
    }
    let inf = ['i', 'n', 'f'];
    let infinity = ['i', 'n', 'f', 'i', 'n', 'i', 't', 'y'];
    let nan = ['n', 'a', 'n'];
    proof {
        assert(inf@ == "inf"@);
        assert(infinity@ == "infinity"@);
        assert(nan@ == "nan"@);
    }
    spells_ci(t.as_slice(), &inf) || spells_ci(t.as_slice(), &infinity) || spells_ci(t.as_slice(), &nan)
        || number(t.as_slice())
}

/// The characters `s[a..b]`.
pub fn chars_between(s: &[char], a: usize, b: usize) -> (r: Vec<char>)
    requires
        a <= b <= s@.len(),
    ensures
        r@ == s@.subrange(a as int, b as int),
{
    slice_to_vec(slice_subrange(s, a, b))
}

/// A line without the carriage return of a `\r\n` ending.
pub open spec fn strip_cr(l: Seq<char>) -> Seq<char> {
    if l.len() > 0 && l.last() == '\r' {
        l.drop_last()
    } else {
        l
    }
}

/// What `str::lines` yields: the text split at each `\n`, a `\r` right
/// before it dropped, no line after a final `\n`.
pub open spec fn lines_of(s: Seq<char>) -> Seq<Seq<char>>
    decreases s.len(),
{
    if s.len() == 0 {
        seq![]
    } else {
        let i = first_index(s, '\n');
        proof {
            lemma_first_index(s, '\n');
        }
        if i >= s.len() {
            seq![s]
        } else {
            seq![strip_cr(s.take(i))] + lines_of(s.skip(i + 1))
        }
    }
}

/// The characters of each of a sequence of character vectors.
pub open spec fn views(v: Seq<Vec<char>>) -> Seq<Seq<char>> {
    v.map_values(|c: Vec<char>| c@)
}

/// The lines of a text, as `str::lines` cuts them.
pub fn split_lines(s: &[char]) -> (r: Vec<Vec<char>>)
    ensures
        views(r@) == lines_of(s@),
{
    let n = s.len();
    let mut out: Vec<Vec<char>> = Vec::new();
    let mut pos: usize = 0;
    proof {
        assert(s@.skip(0) == s@);
    }
    while pos < n
        invariant
            pos <= n,
            n == s@.len(),
            lines_of(s@) == views(out@) + lines_of(s@.skip(pos as int)),
        decreases n - pos,
    {
        let ghost rest = s@.skip(pos as int);
        let i = find(s, pos, '\n');
        proof {
            lemma_first_index(rest, '\n');
        }
        if i == n {
            let line = chars_between(s, pos, n);
            proof {
                assert(line@ == rest);
                assert(lines_of(rest) == seq![rest]);
                assert(s@.skip(n as int) =~= Seq::<char>::empty());
            }
            let ghost before = views(out@);
            out.push(line);
            proof {
                assert(views(out@) =~= before.push(line@));
            }
            pos = n;
        } else {
            let mut line = chars_between(s, pos, i);
            if line.len() > 0 && line[line.len() - 1] == '\r' {
                line.pop();
            }
            proof {
                assert(rest.take(i - pos) =~= s@.subrange(pos as int, i as int));
                assert(line@ == strip_cr(rest.take(i - pos)));
                assert(rest.skip(i - pos + 1) =~= s@.skip(i + 1));
            }
            let ghost before = views(out@);
            out.push(line);
            proof {
                assert(views(out@) =~= before.push(line@));
            }
            pos = i + 1;
        }
    }
    proof {
        assert(s@.skip(n as int) =~= Seq::<char>::empty());
    }
    out
}

/// The characters that `char::is_whitespace` accepts, the Unicode
/// White_Space property.
pub open spec fn is_space(c: char) -> bool {
    ('\t' <= c && c <= '\r') || c == ' ' || c == '\u{85}' || c == '\u{a0}' || c == '\u{1680}'
        || ('\u{2000}' <= c && c <= '\u{200a}') || c == '\u{2028}' || c == '\u{2029}'
        || c == '\u{202f}' || c == '\u{205f}' || c == '\u{3000}'
}

/// `char::is_whitespace`.
pub fn space(c: char) -> (r: bool)
    ensures
        r == is_space(c),
{
    ('\t' <= c && c <= '\r') || c == ' ' || c == '\u{85}' || c == '\u{a0}' || c == '\u{1680}'
        || ('\u{2000}' <= c && c <= '\u{200a}') || c == '\u{2028}' || c == '\u{2029}'
        || c == '\u{202f}' || c == '\u{205f}' || c == '\u{3000}'
}

/// The length of the run of non-space characters that starts `s`.
pub open spec fn word_len(s: Seq<char>) -> int
    decreases s.len(),
{
    if s.len() == 0 || is_space(s[0]) {
        0
    } else {
        1 + word_len(s.drop_first())
    }
}

pub proof fn lemma_word_len(s: Seq<char>)
    ensures
        0 <= word_len(s) <= s.len(),
        s.len() > 0 && !is_space(s[0]) ==> word_len(s) >= 1,
        word_len(s) < s.len() ==> is_space(s[word_len(s)]),
        forall|j: int| 0 <= j < word_len(s) ==> !is_space(#[trigger] s[j]),
    decreases s.len(),
{
    if s.len() > 0 && !is_space(s[0]) {
        lemma_word_len(s.drop_first());
        assert forall|j: int| 0 <= j < word_len(s) implies !is_space(#[trigger] s[j]) by {
            if j > 0 {
                assert(s[j] == s.drop_first()[j - 1]);
            }
        }
    }
}

/// What `str::split_whitespace` yields: the maximal runs of non-space
/// characters, in order.
pub open spec fn words_of(s: Seq<char>) -> Seq<Seq<char>>
    decreases s.len(),
{
    if s.len() == 0 {
        seq![]
    } else if is_space(s[0]) {
        words_of(s.drop_first())
    } else {
        let n = word_len(s);
        proof {
            lemma_word_len(s);
        }
        seq![s.take(n)] + words_of(s.skip(n))
    }
}

/// The words of a line, as `str::split_whitespace` cuts them.
pub fn split_words(s: &[char]) -> (r: Vec<Vec<char>>)
    ensures
        views(r@) == words_of(s@),
{
    let n = s.len();
    let mut out: Vec<Vec<char>> = Vec::new();
    let mut pos: usize = 0;
    proof {
        assert(s@.skip(0) == s@);
    }
    while pos < n
        invariant
            pos <= n,
            n == s@.len(),
            words_of(s@) == views(out@) + words_of(s@.skip(pos as int)),
        decreases n - pos,
    {
        let ghost rest = s@.skip(pos as int);
        if space(s[pos]) {
            proof {
                assert(rest.drop_first() =~= s@.skip(pos + 1));
            }
            pos += 1;
        } else {
            let mut e = pos;
            proof {
                lemma_word_len(rest);
            }
            while e < n && !space(s[e])
                invariant
                    pos <= e <= n,
                    n == s@.len(),
                    rest == s@.skip(pos as int),
                    e - pos <= word_len(rest),
                    word_len(rest) == (e - pos) + word_len(s@.skip(e as int)),
                decreases n - e,
            {
                proof {
                    assert(s@.skip(e as int).drop_first() =~= s@.skip(e + 1));
                    lemma_word_len(s@.skip(e + 1));
                }
                e += 1;
            }
            proof {
                if e < n {
                    assert(s@.skip(e as int)[0] == s@[e as int]);
                } else {
                    assert(s@.skip(e as int).len() == 0);
                }
            }
            let word = chars_between(s, pos, e);
            proof {
                assert(word@ =~= rest.take(e - pos));
                assert(rest.skip(e - pos) =~= s@.skip(e as int));
            }
            let ghost before = views(out@);
            out.push(word);
            proof {
                assert(views(out@) =~= before.push(word@));
            }
            pos = e;
        }
    }
    proof {
        assert(s@.skip(n as int) =~= Seq::<char>::empty());
    }
    out
}

} // verus!
