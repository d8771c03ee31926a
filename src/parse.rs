use vstd::prelude::*;
use vstd::std_specs::iter::IteratorSpec;
use vstd::string::StringSliceAdditionalSpecFns;
use crate::grid::Point;

verus! {

/// Why a line did not give a point.
#[derive(Clone, Copy, Debug, PartialEq, Eq, Structural)]
pub enum ParseError {
    /// The line holds fewer than two numerals.
    MissingCoordinate,
    /// A numeral of the line is not made of ASCII digits, or its value does
    /// not fit in `usize`.
    InvalidCoordinate,
    /// A number of a grid row does not fit in `u8`.
    CellCodeTooLarge,
}

/// The length in bytes of the UTF-8 encoding of a Unicode white-space
/// character that starts at `j` in `s`, or 0 where none does: U+0009 to
/// U+000D, U+0020, U+0085, U+00A0, U+1680, U+2000 to U+200A, U+2028, U+2029,
/// U+202F, U+205F and U+3000.
pub open spec fn space_len(s: Seq<u8>, j: int) -> int {
    if j < 0 || j >= s.len() {
        0
    } else if (9 <= s[j] <= 13) || s[j] == 32 {
        1
    } else if j + 1 < s.len() && s[j] == 0xC2 && (s[j + 1] == 0x85 || s[j + 1] == 0xA0) {
        2
    } else if j + 2 < s.len() && ((s[j] == 0xE1 && s[j + 1] == 0x9A && s[j + 2] == 0x80) || (
    s[j] == 0xE2 && s[j + 1] == 0x80 && ((0x80 <= s[j + 2] <= 0x8A) || s[j + 2] == 0xA8
        || s[j + 2] == 0xA9 || s[j + 2] == 0xAF)) || (s[j] == 0xE2 && s[j + 1] == 0x81 && s[j
        + 2] == 0x9F) || (s[j] == 0xE3 && s[j + 1] == 0x80 && s[j + 2] == 0x80)) {
        3
    } else {
        0
    }
}

/// The byte at `k` belongs to a white-space character.
pub open spec fn is_space_at(s: Seq<u8>, k: int) -> bool {
    space_len(s, k) >= 1 || space_len(s, k - 1) >= 2 || space_len(s, k - 2) >= 3
}

/// An ASCII decimal digit.
pub open spec fn is_digit(b: u8) -> bool {
    48 <= b <= 57
}

/// The pieces of `s` between the bytes at which `cut` is set, in order,
/// empty ones included.
pub open spec fn pieces<A>(s: Seq<A>, cut: Seq<bool>) -> Seq<Seq<A>>
    decreases s.len(),
{
    if s.len() == 0 {
        seq![Seq::empty()]
    } else {
        let p = pieces(s.drop_last(), cut);
        if cut[s.len() - 1] {
            p.push(Seq::empty())
        } else {
            p.update(p.len() - 1, p.last().push(s.last()))
        }
    }
}

/// A non-empty run of digits.
pub open spec fn is_number(t: Seq<u8>) -> bool {
    t.len() > 0 && forall|i: int| 0 <= i < t.len() ==> is_digit(#[trigger] t[i])
}

/// The pieces of `s` that are numbers, in order.
pub open spec fn numbers(s: Seq<u8>, cut: Seq<bool>) -> Seq<Seq<u8>> {
    pieces(s, cut).filter(|t: Seq<u8>| is_number(t))
}

/// A grid row is cut at each byte of a white-space character.
pub open spec fn row_cuts(s: Seq<u8>) -> Seq<bool> {
    Seq::new(s.len(), |k: int| is_space_at(s, k))
}

/// The value of a run of decimal digits.
pub open spec fn value_of(t: Seq<u8>) -> nat
    decreases t.len(),
{
    if t.len() == 0 {
        0
    } else {
        value_of(t.drop_last()) * 10 + (t.last() - 48) as nat
    }
}

/// The cell codes of a grid row such as `0 1 0`: its pieces between
/// white-space characters that are numbers, in order. A number too large for a code makes
/// the row an error.
pub open spec fn row_from(s: Seq<u8>) -> Result<Seq<u8>, ParseError> {
    let ns = numbers(s, row_cuts(s));
    if exists|j: int| 0 <= j < ns.len() && value_of(#[trigger] ns[j]) > 255 {
        Err(ParseError::CellCodeTooLarge)
    } else {
        Ok(ns.map_values(|t: Seq<u8>| value_of(t) as u8))
    }
}

proof fn lemma_pieces_len(s: Seq<u8>, cut: Seq<bool>)
    ensures
        pieces(s, cut).len() >= 1,
    decreases s.len(),
{
    if s.len() > 0 {
        lemma_pieces_len(s.drop_last(), cut);
    }
}

proof fn lemma_filter_push(p: Seq<Seq<u8>>, t: Seq<u8>)
    ensures
        p.push(t).filter(|u: Seq<u8>| is_number(u)) == if is_number(t) {
            p.filter(|u: Seq<u8>| is_number(u)).push(t)
        } else {
            p.filter(|u: Seq<u8>| is_number(u))
        },
{
    reveal_with_fuel(Seq::filter, 1);
    assert(p.push(t).drop_last() =~= p);
}

/// `a` is the start of `b`.
pub open spec fn is_prefix(a: Seq<Seq<u8>>, b: Seq<Seq<u8>>) -> bool {
    a.len() <= b.len() && a == b.take(a.len() as int)
}

proof fn lemma_pieces_prefix(s: Seq<u8>, k: int, cut: Seq<bool>)
    requires
        0 <= k <= s.len(),
    ensures
        is_prefix(pieces(s.take(k), cut).drop_last(), pieces(s, cut).drop_last()),
    decreases s.len() - k,
{
    if k == s.len() {
        assert(s.take(k) =~= s);
        assert(pieces(s, cut).drop_last() =~= pieces(s, cut).drop_last().take(
            pieces(s, cut).drop_last().len() as int,
        ));
    } else {
        lemma_pieces_prefix(s, k + 1, cut);
        assert(s.take(k + 1).drop_last() =~= s.take(k));
        let a = pieces(s.take(k), cut).drop_last();
        let m = pieces(s.take(k + 1), cut).drop_last();
        let b = pieces(s, cut).drop_last();
        let t = s.take(k);
        lemma_pieces_len(t, cut);
        assert(s.take(k + 1).last() == s[k]);
        assert(is_prefix(a, m)) by {
            if cut[k] {
                assert(m =~= pieces(t, cut));
            } else {
                assert(m =~= pieces(t, cut).drop_last());
            }
            assert(a =~= m.take(a.len() as int));
        }
        assert(a =~= b.take(a.len() as int));
    }
}

proof fn lemma_filter_prefix(a: Seq<Seq<u8>>, b: Seq<Seq<u8>>)
    requires
        is_prefix(a, b),
    ensures
        is_prefix(a.filter(|u: Seq<u8>| is_number(u)), b.filter(|u: Seq<u8>| is_number(u))),
{
    let f = |u: Seq<u8>| is_number(u);
    assert(b =~= a + b.skip(a.len() as int));
    Seq::filter_distributes_over_add(a, b.skip(a.len() as int), f);
    let fa = a.filter(f);
    assert(fa =~= b.filter(f).take(fa.len() as int));
}

/// The numbers of the pieces that end before `k` are the first numbers of `s`.
proof fn lemma_numbers_prefix(s: Seq<u8>, k: int, cut: Seq<bool>)
    requires
        0 <= k <= s.len(),
    ensures
        is_prefix(
            pieces(s.take(k), cut).drop_last().filter(|u: Seq<u8>| is_number(u)),
            numbers(s, cut),
        ),
{
    let p = pieces(s, cut);
    lemma_pieces_len(s, cut);
    lemma_pieces_prefix(s, k, cut);
    lemma_filter_prefix(pieces(s.take(k), cut).drop_last(), p.drop_last());
    assert(p =~= p.drop_last().push(p.last()));
    lemma_filter_push(p.drop_last(), p.last());
    let x = pieces(s.take(k), cut).drop_last().filter(|u: Seq<u8>| is_number(u));
    let y = p.drop_last().filter(|u: Seq<u8>| is_number(u));
    assert(x =~= numbers(s, cut).take(x.len() as int));
}

/// The length of the white-space character that starts at `j`, as
/// `space_len` gives it.
fn space_len_at(bytes: &[u8], j: usize) -> (r: usize)
    ensures
        r == space_len(bytes@, j as int),
{
    let n = bytes.len();
    if j >= n {
        return 0;
    }
    let b = bytes[j];
    if (b >= 9 && b <= 13) || b == 32 {
        1
    } else if j < n - 1 && b == 0xC2 && (bytes[j + 1] == 0x85 || bytes[j + 1] == 0xA0) {
        2
    } else if n >= 2 && j < n - 2 {
        let c = bytes[j + 1];
        let d = bytes[j + 2];
        if (b == 0xE1 && c == 0x9A && d == 0x80) || (b == 0xE2 && c == 0x80 && ((d >= 0x80 && d
            <= 0x8A) || d == 0xA8 || d == 0xA9 || d == 0xAF)) || (b == 0xE2 && c == 0x81 && d
            == 0x9F) || (b == 0xE3 && c == 0x80 && d == 0x80) {
            3
        } else {
            0
        }
    } else {
        0
    }
}

/// Whether the byte at `k` belongs to a white-space character.
fn space_at(bytes: &[u8], k: usize) -> (r: bool)
    ensures
        r == is_space_at(bytes@, k as int),
{
    if space_len_at(bytes, k) >= 1 {
        return true;
    }
    if k >= 1 && space_len_at(bytes, k - 1) >= 2 {
        return true;
    }
    k >= 2 && space_len_at(bytes, k - 2) >= 3
}

/// Reads the cell codes of a grid row such as `0 1 0`: the row is cut at
/// white space (the ASCII kinds and the other Unicode ones), and the pieces made of decimal digits alone are the
/// codes, in order. Other pieces are skipped.
pub fn parse_row(line: &str) -> (r: Result<Vec<u8>, ParseError>)
    ensures
        r matches Ok(v) ==> row_from(line.spec_bytes()) == Ok::<Seq<u8>, ParseError>(v@),
        r is Err ==> r == Err::<Vec<u8>, ParseError>(ParseError::CellCodeTooLarge) && row_from(
            line.spec_bytes(),
        ) == Err::<Seq<u8>, ParseError>(ParseError::CellCodeTooLarge),
{
    let bytes = line.as_bytes();
    let ghost s = bytes@;
    let ghost cut = row_cuts(s);
    let mut out: Vec<u8> = Vec::new();
    let mut cur_nonempty = false;
    let mut cur_digits = true;
    let mut cur_val: u8 = 0;
    let mut cur_fits = true;
    let mut i: usize = 0;
    proof {
        assert(s.take(0) =~= Seq::<u8>::empty());
        reveal_with_fuel(Seq::filter, 1);
        assert(pieces(s.take(0), cut).drop_last() =~= Seq::<Seq<u8>>::empty());
    }
    while i < bytes.len()
        invariant
            s == bytes@,
            s == line.spec_bytes(),
            cut == row_cuts(s),
            i <= s.len(),
            ({
                let p = pieces(s.take(i as int), cut);
                let done = p.drop_last().filter(|u: Seq<u8>| is_number(u));
                let cur = p.last();
                &&& p.len() >= 1
                &&& out@ == done.map_values(|t: Seq<u8>| value_of(t) as u8)
                &&& forall|j: int| 0 <= j < done.len() ==> value_of(#[trigger] done[j]) <= 255
                &&& cur_nonempty == (cur.len() > 0)
                &&& cur_digits == (forall|j: int| 0 <= j < cur.len() ==> is_digit(#[trigger] cur[j]))
                &&& cur_digits ==> cur_fits == (value_of(cur) <= 255)
                &&& cur_digits && cur_fits ==> cur_val == value_of(cur)
            }),
        decreases s.len() - i,
    {
        let ghost p = pieces(s.take(i as int), cut);
        let ghost done = p.drop_last().filter(|u: Seq<u8>| is_number(u));
        let ghost cur = p.last();
        let b = bytes[i];
        if space_at(bytes, i) {
            proof {
                assert(p =~= p.drop_last().push(cur));
                lemma_filter_push(p.drop_last(), cur);
            }
            if cur_nonempty && cur_digits {
                if !cur_fits {
                    proof {
                        let all = p.filter(|u: Seq<u8>| is_number(u));
                        assert(all[all.len() - 1] == cur);
                        assert(s.take(i + 1).drop_last() =~= s.take(i as int));
                        assert(s.take(i + 1).last() == b);
                        let p2 = pieces(s.take(i + 1), cut);
                        assert(p2.drop_last() =~= p);
                        lemma_numbers_prefix(s, i as int + 1, cut);
                        assert(all.len() - 1 < numbers(s, cut).len());
                        assert(numbers(s, cut)[all.len() - 1] == all[all.len() - 1]);
                        assert(value_of(numbers(s, cut)[all.len() - 1]) > 255);
                        assert(row_from(s) is Err);
                    }
                    return Err(ParseError::CellCodeTooLarge);
                }
                out.push(cur_val);
            }
            proof {
                let all = p.filter(|u: Seq<u8>| is_number(u));
                assert(out@ =~= all.map_values(|t: Seq<u8>| value_of(t) as u8));
                assert(s.take(i + 1).drop_last() =~= s.take(i as int));
                assert(s.take(i + 1).last() == b);
                let p2 = pieces(s.take(i + 1), cut);
                assert(p2 == p.push(Seq::empty()));
                assert(p2.drop_last() =~= p);
            }
            cur_nonempty = false;
            cur_digits = true;
            cur_val = 0;
            cur_fits = true;
        } else {
            let ghost cur2 = cur.push(b);
            proof {
                assert(s.take(i + 1).drop_last() =~= s.take(i as int));
                assert(s.take(i + 1).last() == b);
                let p2 = pieces(s.take(i + 1), cut);
                assert(p2 == p.update(p.len() - 1, cur2));
                assert(p2.drop_last() =~= p.drop_last());
                assert(p2.last() == cur2);
                assert(cur2.drop_last() =~= cur);
                assert(value_of(cur2) == value_of(cur) * 10 + (b - 48) as nat);
            }
            if b >= 48 && b <= 57 {
                if cur_digits && cur_fits {
                    match cur_val.checked_mul(10) {
                        Some(m) => match m.checked_add(b - 48) {
                            Some(v) => {
                                cur_val = v;
                            },
                            None => {
                                cur_fits = false;
                            },
                        },
                        None => {
                            cur_fits = false;
                        },
                    }
                }
            } else {
                cur_digits = false;
                proof {
                    assert(!is_digit(cur2[cur.len() as int]));
                }
            }
            proof {
                if cur_digits {
                    assert forall|j: int| 0 <= j < cur2.len() implies is_digit(#[trigger] cur2[j]) by {
                        if j < cur.len() {
                            assert(cur2[j] == cur[j]);
                        }
                    }
                }
            }
            cur_nonempty = true;
        }
        i = i + 1;
    }
    let ghost p = pieces(s.take(i as int), cut);
    let ghost cur = p.last();
    let ghost all = p.filter(|u: Seq<u8>| is_number(u));
    proof {
        assert(s.take(i as int) =~= s);
        assert(p =~= p.drop_last().push(cur));
        lemma_filter_push(p.drop_last(), cur);
    }
    if cur_nonempty && cur_digits {
        if !cur_fits {
            proof {
                assert(all[all.len() - 1] == cur);
                assert(value_of(numbers(s, cut)[all.len() - 1]) > 255);
            }
            return Err(ParseError::CellCodeTooLarge);
        }
        out.push(cur_val);
    }
    proof {
        assert(out@ =~= all.map_values(|t: Seq<u8>| value_of(t) as u8));
        assert(forall|j: int| 0 <= j < all.len() ==> value_of(#[trigger] all[j]) <= 255);
    }
    Ok(out)
}

/// Whether `char::is_numeric` holds of `c`: `c` is in one of Unicode's
/// number categories.
pub uninterp spec fn numeric(c: char) -> bool;

/// Relies on `char::is_numeric`: whether `c` is in one of Unicode's number
/// categories (Nd, Nl, No), among them the ASCII digits.
#[verifier::external_body]
fn is_numeric_char(c: char) -> (r: bool)
    ensures
        r == numeric(c),
        ('0' <= c && c <= '9') ==> r,
{
    c.is_numeric()
}

/// '(', ')' and ',' divide a point line into pieces.
pub open spec fn is_point_separator(c: char) -> bool {
    c == '(' || c == ')' || c == ','
}

/// Each character of a point line, with whether it is numeric.
pub open spec fn marked(s: Seq<char>) -> Seq<(char, bool)> {
    s.map_values(|c: char| (c, numeric(c)))
}

/// A point line is cut at each separator.
pub open spec fn point_cuts(s: Seq<(char, bool)>) -> Seq<bool> {
    s.map_values(|x: (char, bool)| is_point_separator(x.0))
}

/// A piece that the line's coordinates are read from: one or more
/// characters, all of them numeric.
pub open spec fn is_numeral(t: Seq<(char, bool)>) -> bool {
    t.len() > 0 && forall|i: int| 0 <= i < t.len() ==> #[trigger] t[i].1
}

pub open spec fn is_ascii_digit(c: char) -> bool {
    '0' <= c && c <= '9'
}

/// The value of a run of ASCII digits.
pub open spec fn decimal_value(t: Seq<(char, bool)>) -> nat
    decreases t.len(),
{
    if t.len() == 0 {
        0
    } else {
        decimal_value(t.drop_last()) * 10 + ((t.last().0 as u32) - 48) as nat
    }
}

/// A numeral made of ASCII digits whose value fits in `usize`.
pub open spec fn is_coordinate(t: Seq<(char, bool)>) -> bool {
    &&& forall|i: int| 0 <= i < t.len() ==> is_ascii_digit(#[trigger] t[i].0)
    &&& decimal_value(t) <= usize::MAX
}

/// The numerals of a marked point line, in order.
pub open spec fn numerals(s: Seq<(char, bool)>) -> Seq<Seq<(char, bool)>> {
    pieces(s, point_cuts(s)).filter(|t: Seq<(char, bool)>| is_numeral(t))
}

/// The point that a marked line such as `(3,4)` names: every numeral must
/// be a decimal `usize`, and the first two are the row and the column.
pub open spec fn point_from(s: Seq<(char, bool)>) -> Result<Point, ParseError> {
    let ns = numerals(s);
    if exists|j: int| 0 <= j < ns.len() && !is_coordinate(#[trigger] ns[j]) {
        Err(ParseError::InvalidCoordinate)
    } else if ns.len() < 2 {
        Err(ParseError::MissingCoordinate)
    } else {
        Ok(Point(decimal_value(ns[0]) as usize, decimal_value(ns[1]) as usize))
    }
}

proof fn lemma_numeral_push(p: Seq<Seq<(char, bool)>>, t: Seq<(char, bool)>)
    ensures
        p.push(t).filter(|u: Seq<(char, bool)>| is_numeral(u)) == if is_numeral(t) {
            p.filter(|u: Seq<(char, bool)>| is_numeral(u)).push(t)
        } else {
            p.filter(|u: Seq<(char, bool)>| is_numeral(u))
        },
{
    reveal_with_fuel(Seq::filter, 1);
    assert(p.push(t).drop_last() =~= p);
}

/// Reads a point from a line whose characters are marked numeric or not,
/// as `point_from` says.
pub fn parse_marked_point(s: &Vec<(char, bool)>) -> (r: Result<Point, ParseError>)
    ensures
        r == point_from(s@),
{
    let ghost cut = point_cuts(s@);
    let mut found: usize = 0;
    let mut v0: usize = 0;
    let mut v1: usize = 0;
    let mut bad = false;
    let mut cur_nonempty = false;
    let mut cur_numeric = true;
    let mut cur_digits = true;
    let mut cur_val: usize = 0;
    let mut cur_fits = true;
    let mut i: usize = 0;
    proof {
        assert(s@.take(0) =~= Seq::<(char, bool)>::empty());
        reveal_with_fuel(Seq::filter, 1);
        assert(pieces(s@.take(0), cut).drop_last() =~= Seq::<Seq<(char, bool)>>::empty());
    }
    while i < s.len()
        invariant
            cut == point_cuts(s@),
            i <= s@.len(),
            pieces(s@.take(i as int), cut).len() >= 1,
            ({
                let p = pieces(s@.take(i as int), cut);
                let done = p.drop_last().filter(|u: Seq<(char, bool)>| is_numeral(u));
                let cur = p.last();
                &&& bad == exists|j: int| 0 <= j < done.len() && !is_coordinate(#[trigger] done[j])
                &&& found == if done.len() < 2 {
                    done.len()
                } else {
                    2
                }
                &&& !bad && found >= 1 ==> v0 == decimal_value(done[0])
                &&& !bad && found >= 2 ==> v1 == decimal_value(done[1])
                &&& cur_nonempty == (cur.len() > 0)
                &&& cur_numeric == (forall|j: int| 0 <= j < cur.len() ==> #[trigger] cur[j].1)
                &&& cur_digits == (forall|j: int| 0 <= j < cur.len() ==> is_ascii_digit(#[trigger] cur[j].0))
                &&& cur_digits ==> cur_fits == (decimal_value(cur) <= usize::MAX)
                &&& cur_digits && cur_fits ==> cur_val == decimal_value(cur)
            }),
        decreases s@.len() - i,
    {
        let (c, num) = s[i];
        let ghost p = pieces(s@.take(i as int), cut);
        let ghost cur = p.last();
        let ghost done = p.drop_last().filter(|u: Seq<(char, bool)>| is_numeral(u));
        proof {
            assert(s@.take(i + 1).drop_last() =~= s@.take(i as int));
            assert(s@.take(i + 1).last() == (c, num));
        }
        if c == '(' || c == ')' || c == ',' {
            proof {
                let p2 = pieces(s@.take(i + 1), cut);
                assert(p2 == p.push(Seq::empty()));
                assert(p2.drop_last() =~= p);
                assert(p =~= p.drop_last().push(cur));
                lemma_numeral_push(p.drop_last(), cur);
                if cur_nonempty && cur_numeric {
                    let done2 = done.push(cur);
                    assert(done2[done.len() as int] == cur);
                    if !bad && (!cur_digits || !cur_fits) {
                        assert(!is_coordinate(done2[done.len() as int]));
                    }
                    if bad {
                        let j = choose|j: int| 0 <= j < done.len() && !is_coordinate(#[trigger] done[j]);
                        assert(done2[j] == done[j]);
                    }
                    assert forall|j: int| 0 <= j < done.len() implies #[trigger] done2[j] == done[j] by {}
                }
            }
            if cur_nonempty && cur_numeric {
                if !cur_digits || !cur_fits {
                    bad = true;
                }
                if found == 0 {
                    v0 = cur_val;
                    found = 1;
                } else if found == 1 {
                    v1 = cur_val;
                    found = 2;
                }
            }
            cur_nonempty = false;
            cur_numeric = true;
            cur_digits = true;
            cur_val = 0;
            cur_fits = true;
        } else {
            let ghost cur2 = cur.push((c, num));
            proof {
                let p2 = pieces(s@.take(i + 1), cut);
                assert(p2 == p.update(p.len() - 1, cur2));
                assert(p2.drop_last() =~= p.drop_last());
                assert(p2.last() == cur2);
                assert(cur2.drop_last() =~= cur);
                assert(cur2.last() == (c, num));
                assert(decimal_value(cur2) == decimal_value(cur) * 10 + ((c as u32) - 48) as nat);
            }
            if !num {
                cur_numeric = false;
            }
            if c >= '0' && c <= '9' {
                let d = (c as u32 - 48) as usize;
                if cur_digits && cur_fits {
                    match cur_val.checked_mul(10) {
                        Some(m) => match m.checked_add(d) {
                            Some(v) => {
                                cur_val = v;
                            },
                            None => {
                                cur_fits = false;
                            },
                        },
                        None => {
                            cur_fits = false;
                        },
                    }
                }
            } else {
                cur_digits = false;
            }
            proof {
                assert(cur2[cur.len() as int] == (c, num));
                assert forall|j: int| 0 <= j < cur.len() implies #[trigger] cur2[j] == cur[j] by {}
            }
            cur_nonempty = true;
        }
        i = i + 1;
    }
    let ghost p = pieces(s@.take(i as int), cut);
    let ghost cur = p.last();
    let ghost done = p.drop_last().filter(|u: Seq<(char, bool)>| is_numeral(u));
    proof {
        assert(s@.take(i as int) =~= s@);
        assert(p =~= p.drop_last().push(cur));
        lemma_numeral_push(p.drop_last(), cur);
        if cur_nonempty && cur_numeric {
            let done2 = done.push(cur);
            assert(done2[done.len() as int] == cur);
            if bad {
                let j = choose|j: int| 0 <= j < done.len() && !is_coordinate(#[trigger] done[j]);
                assert(done2[j] == done[j]);
            }
            assert forall|j: int| 0 <= j < done.len() implies #[trigger] done2[j] == done[j] by {}
        }
    }
    if cur_nonempty && cur_numeric {
        if !cur_digits || !cur_fits {
            bad = true;
        }
        if found == 0 {
            v0 = cur_val;
            found = 1;
        } else if found == 1 {
            v1 = cur_val;
            found = 2;
        }
    }
    if bad {
        Err(ParseError::InvalidCoordinate)
    } else if found < 2 {
        Err(ParseError::MissingCoordinate)
    } else {
        Ok(Point(v0, v1))
    }
}

/// Reads a point from a line such as `(3,4)`. The line is cut at '(', ')'
/// and ','; the pieces made of numeric characters alone are numerals, each
/// of which must be a decimal `usize`, and the first two give the row and
/// the column.
pub fn parse_point(point_line: &str) -> (r: Result<Point, ParseError>)
    ensures
        r == point_from(marked(point_line@)),
{
    broadcast use vstd::string::axiom_spec_iter, vstd::string::next_postcondition;

    let mut it = point_line.chars();
    let mut marks: Vec<(char, bool)> = Vec::new();
    loop
        invariant
            it.obeys_prophetic_iter_laws(),
            it.decrease() is Some,
            marks@ + marked(it.remaining()) == marked(point_line@),
        ensures
            marks@ == marked(point_line@),
        decreases it.decrease()->0,
    {
        let ghost rest = it.remaining();
        match it.next() {
            Some(c) => {
                marks.push((c, is_numeric_char(c)));
                proof {
                    assert(marked(rest) =~= seq![(c, numeric(c))] + marked(it.remaining()));
                    assert(marks@ + marked(it.remaining()) =~= marked(point_line@));
                }
            },
            None => {
                proof {
                    assert(marked(it.remaining()) =~= Seq::<(char, bool)>::empty());
                    assert(marks@ + marked(it.remaining()) =~= marks@);
                }
                break;
            },
        }
    }
    parse_marked_point(&marks)
}

} // verus!
