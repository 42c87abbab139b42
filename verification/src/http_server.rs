use crate::tile::{Tile, MAX_ZOOM};
use crate::mapcss::number::{decimal_digits, digit_char};
use crate::util::{all_digits, digit_value, digits_value, is_digit, parse_unsigned, parse_unsigned_in, sign_stripped, str_chars};
use vstd::prelude::*;

verus! {

/// The position of the last `c` in `s`.
pub open spec fn last_pos(s: Seq<char>, c: char) -> Option<int>
    decreases s.len(),
{
    if s.len() == 0 {
        None
    } else if s.last() == c {
        Some(s.len() - 1)
    } else {
        last_pos(s.drop_last(), c)
    }
}

/// `s` without every trailing repetition of `suffix` (`str::trim_end_matches`).
pub open spec fn trim_end_all(s: Seq<char>, suffix: Seq<char>) -> Seq<char>
    decreases s.len(),
{
    if 0 < suffix.len() <= s.len() && s.subrange(s.len() - suffix.len(), s.len() as int) == suffix {
        trim_end_all(s.take(s.len() - suffix.len()), suffix)
    } else {
        s
    }
}

/// The tile that a request asks for, and the scale at which to draw it.
#[derive(Clone, Copy, Debug, PartialEq, Eq, Structural)]
pub struct RequestTile {
    pub tile: Tile,
    pub scale: usize,
}

/// The text before the last `c` of `s` and the text after it.
pub open spec fn split_last(s: Seq<char>, c: char) -> Option<(Seq<char>, Seq<char>)> {
    match last_pos(s, c) {
        Some(i) => Some((s.take(i), s.skip(i + 1))),
        None => None,
    }
}

/// The last three `/`-separated parts of a path (zoom, column, row), where it has them.
pub open spec fn path_parts(p: Seq<char>) -> Option<(Seq<char>, Seq<char>, Seq<char>)> {
    match split_last(p, '/') {
        None => None,
        Some((rest, y)) => match split_last(rest, '/') {
            None => None,
            Some((rest2, x)) => Some(
                (
                    match split_last(rest2, '/') {
                        Some((_, z)) => z,
                        None => rest2,
                    },
                    x,
                    y,
                ),
            ),
        },
    }
}

/// The row text and the scale of the last part of a path: `row@<scale>x` with one `@` and a
/// scale that parses, else the whole part at scale 1.
pub open spec fn row_and_scale(y: Seq<char>) -> (Seq<char>, int) {
    match last_pos(y, '@') {
        Some(i) => if !y.take(i).contains('@') {
            match parse_unsigned(trim_end_all(y.skip(i + 1), seq!['x']), usize::MAX as int) {
                Some(s) => (y.take(i), s),
                None => (y, 1),
            }
        } else {
            (y, 1)
        },
        None => (y, 1),
    }
}

/// The tile that a request path `<...>/<zoom>/<x>/<y>[@<scale>x][.png][?<query>]` asks for.
pub open spec fn spec_request_tile(path: Seq<char>) -> Option<RequestTile> {
    let real_path = match last_pos(path, '?') {
        Some(i) => path.take(i),
        None => path,
    };
    match path_parts(trim_end_all(real_path, seq!['.', 'p', 'n', 'g'])) {
        None => None,
        Some((z, x, y0)) => {
            let (y, scale) = row_and_scale(y0);
            match (parse_unsigned(z, u8::MAX as int), parse_unsigned(x, u32::MAX as int), parse_unsigned(y, u32::MAX as int)) {
                (Some(zv), Some(xv), Some(yv)) => if zv <= MAX_ZOOM {
                    Some(RequestTile { tile: Tile { zoom: zv as u8, x: xv as u32, y: yv as u32 }, scale: scale as usize })
                } else {
                    None
                },
                _ => None,
            }
        },
    }
}

/// The position of the last `c` in `chars[from..to]`.
fn last_pos_in(chars: &Vec<char>, from: usize, to: usize, c: char) -> (res: Option<usize>)
    requires
        from <= to <= chars@.len(),
    ensures
        res is None <==> last_pos(chars@.subrange(from as int, to as int), c) is None,
        res matches Some(i) ==> from <= i < to && last_pos(chars@.subrange(from as int, to as int), c) == Some(
            i - from,
        ),
{
    let mut end = to;
    while end > from
        invariant
            from <= end <= to <= chars@.len(),
            last_pos(chars@.subrange(from as int, to as int), c) == last_pos(chars@.subrange(from as int, end as int), c),
        decreases end - from,
    {
        let ghost s = chars@.subrange(from as int, end as int);
        if chars[end - 1] == c {
            assert(s.last() == c);
            return Some(end - 1);
        }
        assert(s.drop_last() =~= chars@.subrange(from as int, end - 1));
        end = end - 1;
    }
    None
}

/// The end of `chars[from..to]` once every trailing repetition of `suffix` is cut off.
fn trim_end_all_in(chars: &Vec<char>, from: usize, to: usize, suffix: &Vec<char>) -> (res: usize)
    requires
        from <= to <= chars@.len(),
        suffix@.len() > 0,
    ensures
        from <= res <= to,
        chars@.subrange(from as int, res as int) == trim_end_all(chars@.subrange(from as int, to as int), suffix@),
{
    let mut end = to;
    let n = suffix.len();
    loop
        invariant
            from <= end <= to <= chars@.len(),
            n == suffix@.len() > 0,
            trim_end_all(chars@.subrange(from as int, to as int), suffix@) == trim_end_all(
                chars@.subrange(from as int, end as int),
                suffix@,
            ),
        decreases end - from,
    {
        let s = Ghost(chars@.subrange(from as int, end as int));
        if end - from < n {
            return end;
        }
        let start = end - n;
        let mut i: usize = 0;
        let mut same = true;
        while i < n
            invariant
                i <= n == suffix@.len(),
                start + n == end <= chars@.len(),
                same == (forall|k: int| 0 <= k < i ==> chars@[start + k] == suffix@[k]),
            decreases n - i,
        {
            if chars[start + i] != suffix[i] {
                same = false;
            }
            i = i + 1;
        }
        if same {
            assert(s@.subrange(s@.len() - n, s@.len() as int) =~= suffix@);
            assert(s@.take(s@.len() - n) =~= chars@.subrange(from as int, start as int));
            end = start;
        } else {
            assert(s@.subrange(s@.len() - n, s@.len() as int) != suffix@) by {
                let k = choose|k: int| 0 <= k < n && chars@[start + k] != suffix@[k];
                assert(s@.subrange(s@.len() - n, s@.len() as int)[k] == chars@[start + k]);
            }
            return end;
        }
    }
}

/// The end of the path without its query and its trailing `.png`.
fn path_end(chars: &Vec<char>) -> (res: usize)
    ensures
        res <= chars@.len(),
        chars@.subrange(0, res as int) == trim_end_all(
            match last_pos(chars@, '?') {
                Some(i) => chars@.take(i),
                None => chars@,
            },
            seq!['.', 'p', 'n', 'g'],
        ),
{
    let n = chars.len();
    let real_end = match last_pos_in(chars, 0, n, '?') {
        Some(i) => i,
        None => n,
    };
    assert(chars@.subrange(0, n as int) =~= chars@);
    proof {
        lemma_last_pos_found(chars@, '?');
        assert(chars@.subrange(0, real_end as int) =~= match last_pos(chars@, '?') {
            Some(i) => chars@.take(i),
            None => chars@,
        });
    }
    let png = vec!['.', 'p', 'n', 'g'];
    assert(png@ =~= seq!['.', 'p', 'n', 'g']);
    trim_end_all_in(chars, 0, real_end, &png)
}

/// Where the last three `/`-separated parts of `chars[0..end]` lie: the zoom from `.0` to
/// `.1`, the column from `.1 + 1` to `.2`, the row from `.2 + 1` to `end`.
fn path_parts_in(chars: &Vec<char>, end: usize) -> (res: Option<(usize, usize, usize)>)
    requires
        end <= chars@.len(),
    ensures
        match path_parts(chars@.subrange(0, end as int)) {
            None => res is None,
            Some((z, x, y)) => res matches Some((a, b, c)) && a <= b < c < end && z == chars@.subrange(
                a as int,
                b as int,
            ) && x == chars@.subrange(b + 1, c as int) && y == chars@.subrange(c + 1, end as int),
        },
{
    let ghost p = chars@.subrange(0, end as int);
    let last = match last_pos_in(chars, 0, end, '/') {
        Some(i) => i,
        None => {
            assert(split_last(p, '/') is None);
            return None;
        },
    };
    assert(split_last(p, '/') == Some((p.take(last as int), p.skip(last + 1))));
    assert(p.take(last as int) =~= chars@.subrange(0, last as int));
    assert(p.skip(last + 1) =~= chars@.subrange(last + 1, end as int));
    let ghost rest = p.take(last as int);
    let second = match last_pos_in(chars, 0, last, '/') {
        Some(i) => i,
        None => {
            assert(split_last(rest, '/') is None);
            return None;
        },
    };
    assert(split_last(rest, '/') == Some((rest.take(second as int), rest.skip(second + 1))));
    let z_start = match last_pos_in(chars, 0, second, '/') {
        Some(i) => i + 1,
        None => 0,
    };
    proof {
        assert(rest.take(second as int) =~= chars@.subrange(0, second as int));
        assert(rest.skip(second + 1) =~= chars@.subrange(second + 1, last as int));
        let rest2 = rest.take(second as int);
        if z_start > 0 {
            assert(rest2.skip(z_start as int) =~= chars@.subrange(z_start as int, second as int));
        }
    }
    Some((z_start, second, last))
}

/// Where the row of `chars[from..end]` ends and the scale that follows it (see `row_and_scale`).
fn row_and_scale_in(chars: &Vec<char>, from: usize, end: usize) -> (res: (usize, usize))
    requires
        from <= end <= chars@.len(),
    ensures
        from <= res.0 <= end,
        row_and_scale(chars@.subrange(from as int, end as int)) == (chars@.subrange(from as int, res.0 as int), res.1 as int),
{
    let ghost y0 = chars@.subrange(from as int, end as int);
    match last_pos_in(chars, from, end, '@') {
        Some(at) => {
            let ghost i = at - from;
            let earlier = last_pos_in(chars, from, at, '@');
            assert(y0.take(i) =~= chars@.subrange(from as int, at as int));
            assert(y0.skip(i + 1) =~= chars@.subrange(at + 1, end as int));
            if earlier.is_none() {
                proof {
                    assert forall|k: int| 0 <= k < i implies #[trigger] y0.take(i)[k] != '@' by {
                        lemma_no_last_pos(chars@.subrange(from as int, at as int), '@', k);
                    }
                    assert(!y0.take(i).contains('@'));
                }
                let xs = vec!['x'];
                assert(xs@ =~= seq!['x']);
                let scale_end = trim_end_all_in(chars, at + 1, end, &xs);
                let ghost scale_text = trim_end_all(y0.skip(i + 1), seq!['x']);
                assert(scale_text == chars@.subrange(at + 1, scale_end as int));
                match parse_unsigned_in(chars, at + 1, scale_end, usize::MAX as u64) {
                    Some(s) => {
                        assert(parse_unsigned(scale_text, usize::MAX as int) == Some(s as int));
                        assert(row_and_scale(y0) == (y0.take(i), s as int));
                        (at, s as usize)
                    },
                    None => {
                        assert(parse_unsigned(scale_text, usize::MAX as int) is None);
                        assert(y0 =~= chars@.subrange(from as int, end as int));
                        (end, 1)
                    },
                }
            } else {
                proof {
                    let j = earlier.unwrap() - from;
                    lemma_last_pos_found(chars@.subrange(from as int, at as int), '@');
                    assert(y0.take(i)[j] == '@');
                    assert(y0.take(i).contains('@'));
                }
                (end, 1)
            }
        },
        None => (end, 1),
    }
}

/// The tile that a request path `<...>/<zoom>/<x>/<y>[@<scale>x][.png][?<query>]` asks for:
/// `None` where the path does not have that shape, a number does not parse, or the zoom is
/// above the highest one.
pub fn extract_tile_from_path(path: &str) -> (res: Option<RequestTile>)
    ensures
        res == spec_request_tile(path@),
{
    let chars = str_chars(path);
    let end = path_end(&chars);
    let (z_start, second, last) = match path_parts_in(&chars, end) {
        Some(parts) => parts,
        None => return None,
    };
    let (y_end, scale) = row_and_scale_in(&chars, last + 1, end);
    let z = parse_unsigned_in(&chars, z_start, second, 255);
    let x = parse_unsigned_in(&chars, second + 1, last, 0xffff_ffff);
    let y = parse_unsigned_in(&chars, last + 1, y_end, 0xffff_ffff);
    match (z, x, y) {
        (Some(zv), Some(xv), Some(yv)) => {
            if zv <= MAX_ZOOM as u64 {
                Some(RequestTile { tile: Tile { zoom: zv as u8, x: xv as u32, y: yv as u32 }, scale })
            } else {
                None
            }
        },
        _ => None,
    }
}

/// Where `last_pos` finds nothing, no character is `c`.
proof fn lemma_no_last_pos(s: Seq<char>, c: char, k: int)
    requires
        last_pos(s, c) is None,
        0 <= k < s.len(),
    ensures
        s[k] != c,
    decreases s.len(),
{
    if s.last() != c && k < s.len() - 1 {
        lemma_no_last_pos(s.drop_last(), c, k);
    }
}

/// Where `last_pos` finds a position, `c` is there.
proof fn lemma_last_pos_found(s: Seq<char>, c: char)
    ensures
        last_pos(s, c) matches Some(i) ==> 0 <= i < s.len() && s[i] == c,
    decreases s.len(),
{
    if s.len() > 0 && s.last() != c {
        lemma_last_pos_found(s.drop_last(), c);
    }
}


/// The digits of a number are digits, there is at least one, and they read as the number.
proof fn lemma_decimal_digits(m: nat)
    ensures
        decimal_digits(m).len() > 0,
        all_digits(decimal_digits(m)),
        digits_value(decimal_digits(m)) == m,
    decreases m,
{
    let d = decimal_digits(m);
    if m < 10 {
        assert(digit_char(m) as int - '0' as int == m);
        assert(d.drop_last() =~= Seq::<char>::empty());
        assert(digits_value(d.drop_last()) == 0);
        assert(d.last() == digit_char(m));
        assert(digits_value(d) == m);
    } else {
        lemma_decimal_digits(m / 10);
        assert(digit_char(m % 10) as int - '0' as int == m % 10);
        assert(d.drop_last() =~= decimal_digits(m / 10));
        assert(d.last() == digit_char(m % 10));
        assert(digits_value(d) == digits_value(decimal_digits(m / 10)) * 10 + digit_value(digit_char(m % 10)));
        assert((m / 10) * 10 + m % 10 == m) by (nonlinear_arith);
        assert(digits_value(d) == m);
        assert forall|i: int| 0 <= i < d.len() implies is_digit(#[trigger] d[i]) by {
            if i < d.len() - 1 {
                assert(d[i] == decimal_digits(m / 10)[i]);
            }
        }
    }
}

/// Where `c` occurs only at the end of `a + [c]`, before `b`, that is its last position.
proof fn lemma_last_pos_concat(a: Seq<char>, c: char, b: Seq<char>)
    requires
        !b.contains(c),
    ensures
        last_pos(a + seq![c] + b, c) == Some(a.len() as int),
    decreases b.len(),
{
    let s = a + seq![c] + b;
    if b.len() == 0 {
        assert(s.last() == c);
    } else {
        assert(s.last() == b.last());
        assert(b.last() != c) by {
            assert(b[b.len() - 1] == b.last());
        }
        assert(!b.drop_last().contains(c)) by {
            if b.drop_last().contains(c) {
                let i = choose|i: int| 0 <= i < b.drop_last().len() && b.drop_last()[i] == c;
                assert(b[i] == c);
            }
        }
        assert(s.drop_last() =~= a + seq![c] + b.drop_last());
        lemma_last_pos_concat(a, c, b.drop_last());
    }
}

/// A text without `c` has no last position of it.
proof fn lemma_last_pos_none(s: Seq<char>, c: char)
    requires
        !s.contains(c),
    ensures
        last_pos(s, c) is None,
    decreases s.len(),
{
    if s.len() > 0 {
        assert(s.last() != c) by {
            assert(s[s.len() - 1] == s.last());
        }
        assert(!s.drop_last().contains(c)) by {
            if s.drop_last().contains(c) {
                let i = choose|i: int| 0 <= i < s.drop_last().len() && s.drop_last()[i] == c;
                assert(s[i] == c);
            }
        }
        lemma_last_pos_none(s.drop_last(), c);
    }
}

/// Digits hold no character but digits.
proof fn lemma_digits_lack(d: Seq<char>, c: char)
    requires
        all_digits(d),
        !is_digit(c),
    ensures
        !d.contains(c),
{
    if d.contains(c) {
        let i = choose|i: int| 0 <= i < d.len() && d[i] == c;
        assert(is_digit(d[i]));
    }
}

/// Digits parse as their value, where it is not above `max`.
proof fn lemma_parse_digits(m: nat, max: int)
    requires
        m <= max,
    ensures
        parse_unsigned(decimal_digits(m), max) == Some(m as int),
{
    lemma_decimal_digits(m);
    let d = decimal_digits(m);
    assert(is_digit(d[0]));
    assert(sign_stripped(d) == d);
}

/// Cutting a suffix off a text that ends with it once.
proof fn lemma_trim_once(s: Seq<char>, suffix: Seq<char>)
    requires
        s.len() > 0,
        suffix.len() > 0,
        s.last() != suffix.last(),
    ensures
        trim_end_all(s + suffix, suffix) == s,
{
    let t = s + suffix;
    assert(t.subrange(t.len() - suffix.len(), t.len() as int) =~= suffix);
    assert(t.take(t.len() - suffix.len()) =~= s);
    if suffix.len() <= s.len() && s.subrange(s.len() - suffix.len(), s.len() as int) == suffix {
        assert(s.subrange(s.len() - suffix.len(), s.len() as int)[suffix.len() - 1] == s.last());
    }
    assert(trim_end_all(s, suffix) == s);
    assert(trim_end_all(t, suffix) == trim_end_all(s, suffix));
}

/// The parts of the path of a tile.
proof fn lemma_path_parts(dz: Seq<char>, dx: Seq<char>, dy: Seq<char>, row: Seq<char>, scale: Option<usize>)
    requires
        all_digits(dz),
        all_digits(dx),
        all_digits(dy),
        row == dy + match scale {
            Some(s) => seq!['@'] + decimal_digits(s as nat) + seq!['x'],
            None => Seq::empty(),
        },
    ensures
        path_parts(seq!['/'] + dz + seq!['/'] + dx + seq!['/'] + row) == Some((dz, dx, row)),
{
    let body = seq!['/'] + dz + seq!['/'] + dx + seq!['/'] + row;
    lemma_digits_lack(dz, '/');
    lemma_digits_lack(dx, '/');
    lemma_digits_lack(dy, '/');
    let a1 = seq!['/'] + dz + seq!['/'] + dx;
    let a2 = seq!['/'] + dz;
    assert(!row.contains('/')) by {
        if row.contains('/') {
            let i = choose|i: int| 0 <= i < row.len() && row[i] == '/';
            if i >= dy.len() {
                let s = scale.unwrap();
                lemma_decimal_digits(s as nat);
                lemma_digits_lack(decimal_digits(s as nat), '/');
                assert(row[i] == (seq!['@'] + decimal_digits(s as nat) + seq!['x'])[i - dy.len()]);
                if i - dy.len() > 0 && i - dy.len() < decimal_digits(s as nat).len() + 1 {
                    assert(decimal_digits(s as nat)[i - dy.len() - 1] == '/');
                }
            } else {
                assert(dy[i] == '/');
            }
        }
    }
    assert(body =~= a1 + seq!['/'] + row);
    lemma_last_pos_concat(a1, '/', row);
    assert(body.take(a1.len() as int) =~= a1);
    assert(body.skip(a1.len() as int + 1) =~= row);
    assert(a1 =~= a2 + seq!['/'] + dx);
    lemma_last_pos_concat(a2, '/', dx);
    assert(a1.take(a2.len() as int) =~= a2);
    assert(a1.skip(a2.len() as int + 1) =~= dx);
    assert(a2 =~= Seq::<char>::empty() + seq!['/'] + dz);
    lemma_last_pos_concat(Seq::<char>::empty(), '/', dz);
    assert(a2.skip(1) =~= dz);
    assert(path_parts(body) == Some((dz, dx, row)));
}

/// The row and the scale of the last part of the path of a tile.
proof fn lemma_row_scale(dy: Seq<char>, row: Seq<char>, scale: Option<usize>)
    requires
        all_digits(dy),
        dy.len() > 0,
        row == dy + match scale {
            Some(s) => seq!['@'] + decimal_digits(s as nat) + seq!['x'],
            None => Seq::empty(),
        },
    ensures
        row_and_scale(row) == (dy, match scale {
            Some(s) => s as int,
            None => 1int,
        }),
{
    match scale {
        Some(s) => {
            let ds = decimal_digits(s as nat);
            lemma_decimal_digits(s as nat);
            lemma_digits_lack(ds, '@');
            lemma_digits_lack(dy, '@');
            assert(!(ds + seq!['x']).contains('@')) by {
                if (ds + seq!['x']).contains('@') {
                    let i = choose|i: int| 0 <= i < (ds + seq!['x']).len() && (ds + seq!['x'])[i] == '@';
                    if i < ds.len() {
                        assert(ds[i] == '@');
                    }
                }
            }
            assert(row =~= dy + seq!['@'] + (ds + seq!['x']));
            lemma_last_pos_concat(dy, '@', ds + seq!['x']);
            assert(row.take(dy.len() as int) =~= dy);
            assert(row.skip(dy.len() as int + 1) =~= ds + seq!['x']);
            assert(is_digit(ds[ds.len() - 1]));
            lemma_trim_once(ds, seq!['x']);
            lemma_parse_digits(s as nat, usize::MAX as int);
            assert(row_and_scale(row) == (dy, s as int));
        },
        None => {
            lemma_digits_lack(dy, '@');
            assert(row =~= dy);
            lemma_last_pos_none(dy, '@');
            assert(row_and_scale(row) == (dy, 1int));
        },
    }
}

/// Neither part of a concatenation holds `c`, so the whole does not.
proof fn lemma_lacks_concat(a: Seq<char>, b: Seq<char>, c: char)
    requires
        !a.contains(c),
        !b.contains(c),
    ensures
        !(a + b).contains(c),
{
    if (a + b).contains(c) {
        let i = choose|i: int| 0 <= i < (a + b).len() && (a + b)[i] == c;
        if i < a.len() {
            assert(a[i] == c);
        } else {
            assert(b[i - a.len()] == c);
        }
    }
}

/// The path of a tile holds no `c` where `c` is none of its characters.
proof fn lemma_tile_path_lacks(dz: Seq<char>, dx: Seq<char>, dy: Seq<char>, scale: Option<usize>, c: char)
    requires
        all_digits(dz),
        all_digits(dx),
        all_digits(dy),
        !is_digit(c),
        c != '/' && c != '@' && c != 'x' && c != '.' && c != 'p' && c != 'n' && c != 'g',
    ensures
        !(seq!['/'] + dz + seq!['/'] + dx + seq!['/'] + (dy + match scale {
            Some(s) => seq!['@'] + decimal_digits(s as nat) + seq!['x'],
            None => Seq::empty(),
        }) + ".png"@).contains(c),
{
    reveal_strlit(".png");
    let slash = seq!['/'];
    assert(!slash.contains(c)) by {
        assert(slash.len() == 1 && slash[0] == '/');
    }
    lemma_digits_lack(dz, c);
    lemma_digits_lack(dx, c);
    lemma_digits_lack(dy, c);
    let tail = match scale {
        Some(s) => seq!['@'] + decimal_digits(s as nat) + seq!['x'],
        None => Seq::empty(),
    };
    assert(!tail.contains(c)) by {
        if let Some(s) = scale {
            lemma_decimal_digits(s as nat);
            lemma_digits_lack(decimal_digits(s as nat), c);
            let at = seq!['@'];
            let xs = seq!['x'];
            assert(!at.contains(c)) by {
                assert(at.len() == 1 && at[0] == '@');
            }
            assert(!xs.contains(c)) by {
                assert(xs.len() == 1 && xs[0] == 'x');
            }
            lemma_lacks_concat(at, decimal_digits(s as nat), c);
            lemma_lacks_concat(at + decimal_digits(s as nat), xs, c);
        }
    }
    assert(!".png"@.contains(c)) by {
        assert(".png"@ =~= seq!['.', 'p', 'n', 'g']);
    }
    lemma_lacks_concat(slash, dz, c);
    lemma_lacks_concat(slash + dz, slash, c);
    lemma_lacks_concat(slash + dz + slash, dx, c);
    lemma_lacks_concat(slash + dz + slash + dx, slash, c);
    lemma_lacks_concat(dy, tail, c);
    lemma_lacks_concat(slash + dz + slash + dx + slash, dy + tail, c);
    lemma_lacks_concat(slash + dz + slash + dx + slash + (dy + tail), ".png"@, c);
}

/// The URL path of a tile: `/{z}/{x}/{y}`, then `@{scale}x` where a scale is given, then `.png`.
pub open spec fn tile_path(z: u8, x: u32, y: u32, scale: Option<usize>) -> Seq<char> {
    seq!['/'] + decimal_digits(z as nat) + seq!['/'] + decimal_digits(x as nat) + seq!['/'] + decimal_digits(y as nat)
        + match scale {
        Some(s) => seq!['@'] + decimal_digits(s as nat) + seq!['x'],
        None => Seq::empty(),
    } + ".png"@
}

/// A tile is served at `/{z}/{x}/{y}.png`, and at `/{z}/{x}/{y}@{scale}x.png` at a scale: the
/// path of a tile asks for that tile, at scale 1 where none is given.
pub proof fn lemma_tile_path(z: u8, x: u32, y: u32, scale: Option<usize>)
    requires
        z <= MAX_ZOOM,
    ensures
        spec_request_tile(tile_path(z, x, y, scale)) == Some(
            RequestTile {
                tile: Tile { zoom: z, x, y },
                scale: match scale {
                    Some(s) => s,
                    None => 1,
                },
            },
        ),
{
    reveal_strlit(".png");
    assert(".png"@ =~= seq!['.', 'p', 'n', 'g']);
    let dz = decimal_digits(z as nat);
    let dx = decimal_digits(x as nat);
    let dy = decimal_digits(y as nat);
    lemma_decimal_digits(z as nat);
    lemma_decimal_digits(x as nat);
    lemma_decimal_digits(y as nat);
    let row = dy + match scale {
        Some(s) => seq!['@'] + decimal_digits(s as nat) + seq!['x'],
        None => Seq::empty(),
    };
    let body = seq!['/'] + dz + seq!['/'] + dx + seq!['/'] + row;
    let path = tile_path(z, x, y, scale);
    assert(path =~= body + ".png"@);
    // No query.
    lemma_tile_path_lacks(dz, dx, dy, scale, '?');
    assert(!path.contains('?'));
    lemma_last_pos_none(path, '?');
    // The extension goes.
    assert(row.len() > 0 && row.last() != 'g') by {
        if let Some(s) = scale {
            assert(row.last() == 'x');
        } else {
            assert(row =~= dy);
            assert(is_digit(dy[dy.len() - 1]));
        }
    }
    assert(body.last() == row.last());
    lemma_trim_once(body, ".png"@);
    // The parts.
    lemma_path_parts(dz, dx, dy, row, scale);
    // The row and the scale.
    lemma_row_scale(dy, row, scale);
    lemma_parse_digits(z as nat, u8::MAX as int);
    lemma_parse_digits(x as nat, u32::MAX as int);
    lemma_parse_digits(y as nat, u32::MAX as int);
    assert(trim_end_all(path, ".png"@) == body);
    assert(path_parts(trim_end_all(path, ".png"@)) == Some((dz, dx, row)));
    let sc: int = match scale {
        Some(s) => s as int,
        None => 1int,
    };
    assert(row_and_scale(row) == (dy, sc));
    assert(parse_unsigned(dz, u8::MAX as int) == Some(z as int));
    assert(parse_unsigned(dx, u32::MAX as int) == Some(x as int));
    assert(parse_unsigned(dy, u32::MAX as int) == Some(y as int));
    assert((sc as usize) == match scale {
        Some(s) => s,
        None => 1,
    });
}

} // verus!
