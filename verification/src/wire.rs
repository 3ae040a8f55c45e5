use vstd::prelude::*;
use crate::MazeError;
use crate::emit::Wall;
use vstd::slice::slice_index_get;

verus! {

/// The wall-list line protocol: one record per line, the five tokens
/// `wall x1 y1 x2 y2` separated by single spaces, coordinates in decimal.
pub open spec fn is_digit(b: u8) -> bool {
    48 <= b <= 57
}

pub open spec fn is_digits(s: Seq<u8>) -> bool {
    s.len() >= 1 && forall|i: int| 0 <= i < s.len() ==> is_digit(#[trigger] s[i])
}

/// The number a digit string denotes.
pub open spec fn dec_val(s: Seq<u8>) -> int
    decreases s.len(),
{
    if s.len() == 0 {
        0
    } else {
        dec_val(s.drop_last()) * 10 + (s.last() - 48)
    }
}

/// The canonical decimal digits of n, most significant first.
pub open spec fn dec_digits(n: nat) -> Seq<u8>
    decreases n,
{
    if n <= 9 {
        seq![(48 + n) as u8]
    } else {
        dec_digits(n / 10).push((48 + n % 10) as u8)
    }
}

pub proof fn lemma_dec_val_nonneg(s: Seq<u8>)
    requires
        forall|i: int| 0 <= i < s.len() ==> is_digit(#[trigger] s[i]),
    ensures
        dec_val(s) >= 0,
    decreases s.len(),
{
    if s.len() > 0 {
        lemma_dec_val_nonneg(s.drop_last());
    }
}

/// A digit string denotes at least the number any of its prefixes denotes.
pub proof fn lemma_dec_val_prefix(s: Seq<u8>, i: int)
    requires
        forall|j: int| 0 <= j < s.len() ==> is_digit(#[trigger] s[j]),
        0 <= i <= s.len(),
    ensures
        dec_val(s.take(i)) <= dec_val(s),
    decreases s.len() - i,
{
    if i == s.len() {
        assert(s.take(i) =~= s);
    } else {
        assert(s.take(i + 1).drop_last() =~= s.take(i));
        lemma_dec_val_nonneg(s.take(i));
        lemma_dec_val_prefix(s, i + 1);
    }
}

/// Formatting then reading a number gives it back: dec_digits writes real
/// digits and dec_val reads them to the same value.
pub proof fn lemma_dec_digits_val(n: nat)
    ensures
        is_digits(dec_digits(n)),
        dec_val(dec_digits(n)) == n,
    decreases n,
{
    if n <= 9 {
        let d = dec_digits(n);
        assert(d =~= seq![(48 + n) as u8]);
        assert(d.drop_last() =~= Seq::<u8>::empty());
        assert(dec_val(Seq::<u8>::empty()) == 0);
        assert(dec_val(d) == n);
    } else {
        lemma_dec_digits_val(n / 10);
        let d = dec_digits(n);
        assert(d.drop_last() =~= dec_digits(n / 10));
        vstd::arithmetic::div_mod::lemma_mod_bound(n as int, 10);
        assert(d.last() == (48 + n % 10) as u8);
        assert(d.last() - 48 == n % 10);
        assert(n == 10 * (n / 10) + n % 10) by {
            vstd::arithmetic::div_mod::lemma_fundamental_div_mod(n as int, 10);
        }
        assert(dec_val(d) == dec_val(dec_digits(n / 10)) * 10 + n % 10);
    }
}

/// The index of the first space in s, or s's length when there is none.
pub open spec fn find_space(s: Seq<u8>) -> int
    decreases s.len(),
{
    if s.len() == 0 {
        0
    } else if s[0] == 32 {
        0
    } else {
        1 + find_space(s.drop_first())
    }
}

pub proof fn lemma_find_space_at(s: Seq<u8>, i: int)
    requires
        0 <= i <= s.len(),
        forall|j: int| 0 <= j < i ==> s[j] != 32,
        i < s.len() ==> s[i] == 32,
    ensures
        find_space(s) == i,
    decreases i,
{
    if i > 0 {
        lemma_find_space_at(s.drop_first(), i - 1);
    }
}

/// s split at its spaces, empty fields kept, as `split(' ')` splits.
pub open spec fn split_sp(s: Seq<u8>) -> Seq<Seq<u8>>
    decreases s.len(),
{
    let i = find_space(s);
    if 0 <= i < s.len() {
        seq![s.take(i)] + split_sp(s.skip(i + 1))
    } else {
        seq![s]
    }
}

pub proof fn lemma_split_sp_len(s: Seq<u8>)
    ensures
        split_sp(s).len() >= 1,
{
}

/// Splitting a line that starts with a space-free token and a space yields
/// that token and then the split of the rest.
pub proof fn lemma_split_token(t: Seq<u8>, rest: Seq<u8>)
    requires
        forall|i: int| 0 <= i < t.len() ==> t[i] != 32,
    ensures
        split_sp(t + seq![32u8] + rest) == seq![t] + split_sp(rest),
{
    let s = t + seq![32u8] + rest;
    lemma_find_space_at(s, t.len() as int);
    assert(s.take(t.len() as int) =~= t);
    assert(s.skip(t.len() as int + 1) =~= rest);
}

/// A space-free line is a single token.
pub proof fn lemma_split_single(t: Seq<u8>)
    requires
        forall|i: int| 0 <= i < t.len() ==> t[i] != 32,
    ensures
        split_sp(t) == seq![t],
{
    lemma_find_space_at(t, t.len() as int);
}

pub open spec fn wall_word() -> Seq<u8> {
    seq![119u8, 97u8, 108u8, 108u8]
}

/// What a wall-list line denotes: five single-space-separated tokens, the
/// word `wall` then four decimal coordinates that fit the machine, or
/// nothing when the line is malformed.
pub open spec fn parse_line_spec(s: Seq<u8>) -> Option<Wall> {
    let t = split_sp(s);
    if t.len() == 5 && t[0] == wall_word() && is_digits(t[1]) && dec_val(t[1]) <= usize::MAX
        && is_digits(t[2]) && dec_val(t[2]) <= usize::MAX && is_digits(t[3]) && dec_val(t[3])
        <= usize::MAX && is_digits(t[4]) && dec_val(t[4]) <= usize::MAX {
        Some(
            Wall {
                x1: dec_val(t[1]) as usize,
                y1: dec_val(t[2]) as usize,
                x2: dec_val(t[3]) as usize,
                y2: dec_val(t[4]) as usize,
            },
        )
    } else {
        None
    }
}

/// Scans s from offset o to the next space (or the end).
fn find_space_from(s: &[u8], o: usize) -> (i: usize)
    requires
        o <= s@.len(),
    ensures
        o <= i <= s@.len(),
        i - o == find_space(s@.skip(o as int)),
        i < s@.len() ==> s@[i as int] == 32,
        forall|j: int| o <= j < i ==> s@[j] != 32,
{
    let mut i = o;
    while i < s.len() && *slice_index_get(s, i) != 32
        invariant
            o <= i <= s@.len(),
            forall|j: int| o <= j < i ==> s@[j] != 32,
        decreases s@.len() - i,
    {
        i = i + 1;
    }
    proof {
        lemma_find_space_at(s@.skip(o as int), i - o);
    }
    i
}

/// Reads the decimal number in s[a..b]; None when the range is empty, holds
/// a non-digit, or denotes a number too large for the machine.
fn parse_dec_range(s: &[u8], a: usize, b: usize) -> (r: Option<usize>)
    requires
        a <= b <= s@.len(),
    ensures
        r is Some <==> (is_digits(s@.subrange(a as int, b as int)) && dec_val(
            s@.subrange(a as int, b as int),
        ) <= usize::MAX),
        r matches Some(v) ==> v == dec_val(s@.subrange(a as int, b as int)),
{
    let ghost sub = s@.subrange(a as int, b as int);
    if a == b {
        return None;
    }
    let mut i = a;
    let mut acc: usize = 0;
    while i < b
        invariant
            a <= i <= b <= s@.len(),
            forall|j: int| a <= j < i ==> is_digit(#[trigger] s@[j]),
            acc == dec_val(s@.subrange(a as int, i as int)),
            sub == s@.subrange(a as int, b as int),
        decreases b - i,
    {
        let c = *slice_index_get(s, i);
        if c < 48 || c > 57 {
            proof {
                assert(sub[i - a] == s@[i as int]);
            }
            return None;
        }
        let d = (c - 48) as usize;
        if acc > (usize::MAX - d) / 10 {
            proof {
                assert(10 * acc + d > usize::MAX) by (nonlinear_arith)
                    requires
                        acc > (usize::MAX - d) / 10,
                        0 <= d <= 9,
                        (usize::MAX - d) / 10 == ((usize::MAX - d) as int) / 10,
                        acc >= 0,
                {
                    vstd::arithmetic::div_mod::lemma_fundamental_div_mod(
                        (usize::MAX - d) as int,
                        10,
                    );
                }
                assert(s@.subrange(a as int, i + 1).drop_last() =~= s@.subrange(
                    a as int,
                    i as int,
                ));
                assert(dec_val(s@.subrange(a as int, i + 1)) == acc * 10 + d);
                if is_digits(sub) {
                    assert(s@.subrange(a as int, i + 1) =~= sub.take(i + 1 - a));
                    lemma_dec_val_prefix(sub, i + 1 - a);
                }
            }
            return None;
        }
        proof {
            assert(acc * 10 + d <= usize::MAX) by (nonlinear_arith)
                requires
                    acc <= (usize::MAX - d) / 10,
                    0 <= d <= 9,
                    acc >= 0,
            {
                vstd::arithmetic::div_mod::lemma_fundamental_div_mod((usize::MAX - d) as int, 10);
            }
            assert(s@.subrange(a as int, i + 1).drop_last() =~= s@.subrange(a as int, i as int));
        }
        acc = acc * 10 + d;
        i = i + 1;
    }
    proof {
        assert(sub =~= s@.subrange(a as int, b as int));
        assert(forall|j: int| 0 <= j < sub.len() ==> is_digit(#[trigger] sub[j]));
    }
    Some(acc)
}

/// Reads one wall-list line in tile or line convention: `wall x1 y1 x2 y2`.
/// Returns the parse failure on any malformed line: wrong leading word,
/// wrong token count, or a non-numeric or oversized coordinate.
#[verifier::rlimit(100)]
pub fn parse_wall_line(s: &[u8]) -> (r: Result<Wall, MazeError>)
    ensures
        r matches Ok(w) ==> parse_line_spec(s@) == Some(w),
        r is Err ==> parse_line_spec(s@) is None,
        r matches Err(e) ==> e == MazeError::Parse,
{
    let n = s.len();
    proof {
        assert(s@.skip(0) =~= s@);
    }
    let i0 = find_space_from(s, 0);
    if i0 != 4 || i0 >= n {
        proof {
            if i0 < n {
                assert(split_sp(s@) == seq![s@.take(i0 as int)] + split_sp(s@.skip(i0 + 1)));
                assert(split_sp(s@)[0] == s@.take(i0 as int));
                assert(s@.take(i0 as int).len() == i0);
                assert(wall_word().len() == 4);
            } else {
                assert(split_sp(s@) == seq![s@]);
            }
        }
        return Err(MazeError::Parse);
    }
    proof {
        assert(split_sp(s@) == seq![s@.take(4)] + split_sp(s@.skip(5)));
        assert(split_sp(s@)[0] == s@.take(4));
        assert(wall_word() == seq![119u8, 97u8, 108u8, 108u8]);
        assert(wall_word()[0] == 119 && wall_word()[1] == 97 && wall_word()[2] == 108
            && wall_word()[3] == 108);
        assert(s@.take(4)[0] == s@[0] && s@.take(4)[1] == s@[1] && s@.take(4)[2] == s@[2]
            && s@.take(4)[3] == s@[3]);
    }
    if !(*slice_index_get(s, 0) == 119 && *slice_index_get(s, 1) == 97 && *slice_index_get(s, 2)
        == 108 && *slice_index_get(s, 3) == 108) {
        return Err(MazeError::Parse);
    }
    proof {
        assert(s@.take(4) =~= wall_word());
    }
    let ghost rest1 = s@.skip(5);
    let i1 = find_space_from(s, 5);
    let ghost t1 = s@.subrange(5, i1 as int);
    proof {
        if i1 < n {
            assert(rest1.take(find_space(rest1)) =~= t1);
            assert(rest1.skip(i1 - 5 + 1) =~= s@.skip(i1 + 1));
            assert(split_sp(rest1) == seq![t1] + split_sp(s@.skip(i1 + 1)));
            lemma_split_sp_len(s@.skip(i1 + 1));
        } else {
            assert(rest1 =~= t1);
            assert(split_sp(rest1) == seq![t1]);
        }
        assert(split_sp(s@)[1] == t1);
    }
    let x1 = match parse_dec_range(s, 5, i1) {
        Some(v) => v,
        None => {
            return Err(MazeError::Parse);
        },
    };
    if i1 >= n {
        return Err(MazeError::Parse);
    }
    let ghost rest2 = s@.skip(i1 + 1);
    let i2 = find_space_from(s, i1 + 1);
    let ghost t2 = s@.subrange(i1 + 1, i2 as int);
    proof {
        if i2 < n {
            assert(rest2.take(find_space(rest2)) =~= t2);
            assert(rest2.skip(i2 - (i1 + 1) + 1) =~= s@.skip(i2 + 1));
            assert(split_sp(rest2) == seq![t2] + split_sp(s@.skip(i2 + 1)));
            lemma_split_sp_len(s@.skip(i2 + 1));
        } else {
            assert(rest2 =~= t2);
            assert(split_sp(rest2) == seq![t2]);
        }
        assert(split_sp(s@)[2] == t2);
    }
    let y1 = match parse_dec_range(s, i1 + 1, i2) {
        Some(v) => v,
        None => {
            return Err(MazeError::Parse);
        },
    };
    if i2 >= n {
        return Err(MazeError::Parse);
    }
    let ghost rest3 = s@.skip(i2 + 1);
    let i3 = find_space_from(s, i2 + 1);
    let ghost t3 = s@.subrange(i2 + 1, i3 as int);
    proof {
        if i3 < n {
            assert(rest3.take(find_space(rest3)) =~= t3);
            assert(rest3.skip(i3 - (i2 + 1) + 1) =~= s@.skip(i3 + 1));
            assert(split_sp(rest3) == seq![t3] + split_sp(s@.skip(i3 + 1)));
            lemma_split_sp_len(s@.skip(i3 + 1));
        } else {
            assert(rest3 =~= t3);
            assert(split_sp(rest3) == seq![t3]);
        }
        assert(split_sp(s@)[3] == t3);
    }
    let x2 = match parse_dec_range(s, i2 + 1, i3) {
        Some(v) => v,
        None => {
            return Err(MazeError::Parse);
        },
    };
    if i3 >= n {
        return Err(MazeError::Parse);
    }
    let ghost rest4 = s@.skip(i3 + 1);
    let i4 = find_space_from(s, i3 + 1);
    let ghost t4 = s@.subrange(i3 + 1, i4 as int);
    proof {
        if i4 < n {
            assert(rest4.take(find_space(rest4)) =~= t4);
            assert(rest4.skip(i4 - (i3 + 1) + 1) =~= s@.skip(i4 + 1));
            assert(split_sp(rest4) == seq![t4] + split_sp(s@.skip(i4 + 1)));
            lemma_split_sp_len(s@.skip(i4 + 1));
        } else {
            assert(rest4 =~= t4);
            assert(split_sp(rest4) == seq![t4]);
        }
        assert(split_sp(s@)[4] == t4);
    }
    let y2 = match parse_dec_range(s, i3 + 1, i4) {
        Some(v) => v,
        None => {
            return Err(MazeError::Parse);
        },
    };
    if i4 != n {
        proof {
            assert(split_sp(s@).len() >= 6);
        }
        return Err(MazeError::Parse);
    }
    proof {
        assert(split_sp(s@) =~= seq![wall_word(), t1, t2, t3, t4]);
        assert(parse_line_spec(s@) == Some(Wall { x1, y1, x2, y2 }));
    }
    Ok(Wall { x1, y1, x2, y2 })
}

/// Writes n in decimal.
fn fmt_dec(n: usize) -> (r: Vec<u8>)
    ensures
        r@ == dec_digits(n as nat),
    decreases n,
{
    if n <= 9 {
        let mut v: Vec<u8> = Vec::new();
        v.push(48 + n as u8);
        proof {
            assert(v@ =~= dec_digits(n as nat));
        }
        v
    } else {
        let mut v = fmt_dec(n / 10);
        v.push(48 + (n % 10) as u8);
        v
    }
}

/// The protocol line of a record, without the line terminator.
pub open spec fn wall_line_bytes(w: Wall) -> Seq<u8> {
    wall_word() + seq![32u8] + dec_digits(w.x1 as nat) + seq![32u8] + dec_digits(w.y1 as nat)
        + seq![32u8] + dec_digits(w.x2 as nat) + seq![32u8] + dec_digits(w.y2 as nat)
}

/// Writes one wall record as a protocol line.
pub fn format_wall_line(w: &Wall) -> (r: Vec<u8>)
    ensures
        r@ == wall_line_bytes(*w),
{
    let mut out: Vec<u8> = Vec::new();
    out.push(119);
    out.push(97);
    out.push(108);
    out.push(108);
    out.push(32);
    let mut d1 = fmt_dec(w.x1);
    out.append(&mut d1);
    out.push(32);
    let mut d2 = fmt_dec(w.y1);
    out.append(&mut d2);
    out.push(32);
    let mut d3 = fmt_dec(w.x2);
    out.append(&mut d3);
    out.push(32);
    let mut d4 = fmt_dec(w.y2);
    out.append(&mut d4);
    proof {
        assert(out@ =~= wall_line_bytes(*w));
    }
    out
}

/// Reading back a formatted record gives the record: the line protocol loses
/// nothing.
pub proof fn lemma_parse_format_round_trip(w: Wall)
    ensures
        parse_line_spec(wall_line_bytes(w)) == Some(w),
{
    let d1 = dec_digits(w.x1 as nat);
    let d2 = dec_digits(w.y1 as nat);
    let d3 = dec_digits(w.x2 as nat);
    let d4 = dec_digits(w.y2 as nat);
    lemma_dec_digits_val(w.x1 as nat);
    lemma_dec_digits_val(w.y1 as nat);
    lemma_dec_digits_val(w.x2 as nat);
    lemma_dec_digits_val(w.y2 as nat);
    let s = wall_line_bytes(w);
    assert(s =~= wall_word() + seq![32u8] + (d1 + seq![32u8] + (d2 + seq![32u8] + (d3
        + seq![32u8] + d4))));
    lemma_split_token(wall_word(), d1 + seq![32u8] + (d2 + seq![32u8] + (d3 + seq![32u8] + d4)));
    assert(d1 + seq![32u8] + (d2 + seq![32u8] + (d3 + seq![32u8] + d4)) =~= d1 + seq![32u8] + (d2
        + seq![32u8] + (d3 + seq![32u8] + d4)));
    lemma_split_token(d1, d2 + seq![32u8] + (d3 + seq![32u8] + d4));
    lemma_split_token(d2, d3 + seq![32u8] + d4);
    lemma_split_token(d3, d4);
    lemma_split_single(d4);
    assert(split_sp(s) =~= seq![wall_word(), d1, d2, d3, d4]);
}

/// A record's two cells are adjacent in the tile convention.
pub open spec fn spec_tile_adjacent(w: Wall) -> bool {
    ||| (w.x1 == w.x2 && (w.y1 == w.y2 + 1 || w.y2 == w.y1 + 1))
    ||| (w.y1 == w.y2 && (w.x1 == w.x2 + 1 || w.x2 == w.x1 + 1))
}

/// The line-segment form of a tile record: the two geometric endpoints of
/// the wall between the two cells. None when the cells are not adjacent or
/// an endpoint coordinate would not fit the machine.
pub open spec fn spec_convert(w: Wall) -> Option<Wall> {
    if w.x1 == w.x2 && w.y1 == w.y2 + 1 && w.x1 < usize::MAX {
        Some(Wall { x1: w.x1, y1: w.y1, x2: (w.x1 + 1) as usize, y2: w.y1 })
    } else if w.x1 == w.x2 && w.y2 == w.y1 + 1 && w.x1 < usize::MAX {
        Some(Wall { x1: w.x1, y1: w.y2, x2: (w.x1 + 1) as usize, y2: w.y2 })
    } else if w.y1 == w.y2 && w.x1 == w.x2 + 1 && w.y1 < usize::MAX {
        Some(Wall { x1: w.x1, y1: w.y1, x2: w.x1, y2: (w.y1 + 1) as usize })
    } else if w.y1 == w.y2 && w.x2 == w.x1 + 1 && w.y1 < usize::MAX {
        Some(Wall { x1: w.x2, y1: w.y1, x2: w.x2, y2: (w.y1 + 1) as usize })
    } else {
        None
    }
}

/// Rewrites a tile-adjacency record into the line-endpoint convention.
/// Non-adjacent cells give the adjacency failure; an adjacent record whose
/// endpoint coordinate would overflow the machine gives the parse failure.
pub fn convert_wall(w: &Wall) -> (r: Result<Wall, MazeError>)
    ensures
        r matches Ok(c) ==> spec_convert(*w) == Some(c),
        r is Ok <==> spec_convert(*w) is Some,
        r matches Err(e) ==> e == (if spec_tile_adjacent(*w) {
            MazeError::Parse
        } else {
            MazeError::Adjacency
        }),
{
    if w.x1 == w.x2 && w.y2 < w.y1 && w.y1 - w.y2 == 1 {
        if w.x1 == usize::MAX {
            return Err(MazeError::Parse);
        }
        Ok(Wall { x1: w.x1, y1: w.y1, x2: w.x1 + 1, y2: w.y1 })
    } else if w.x1 == w.x2 && w.y1 < w.y2 && w.y2 - w.y1 == 1 {
        if w.x1 == usize::MAX {
            return Err(MazeError::Parse);
        }
        Ok(Wall { x1: w.x1, y1: w.y2, x2: w.x1 + 1, y2: w.y2 })
    } else if w.y1 == w.y2 && w.x2 < w.x1 && w.x1 - w.x2 == 1 {
        if w.y1 == usize::MAX {
            return Err(MazeError::Parse);
        }
        Ok(Wall { x1: w.x1, y1: w.y1, x2: w.x1, y2: w.y1 + 1 })
    } else if w.y1 == w.y2 && w.x1 < w.x2 && w.x2 - w.x1 == 1 {
        if w.y1 == usize::MAX {
            return Err(MazeError::Parse);
        }
        Ok(Wall { x1: w.x2, y1: w.y1, x2: w.x2, y2: w.y1 + 1 })
    } else {
        Err(MazeError::Adjacency)
    }
}

/// One full converter step: reads a tile-convention line, rewrites it to the
/// line convention, and writes it back out. A well-formed line whose record
/// converts always succeeds; a malformed line gives the parse failure, and a
/// well-formed one that does not convert gives the adjacency failure (or the
/// parse failure when only the endpoint would overflow the machine).
pub fn convert_line(s: &[u8]) -> (r: Result<Vec<u8>, MazeError>)
    ensures
        r matches Ok(out) ==> parse_line_spec(s@) is Some && spec_convert(
            parse_line_spec(s@)->Some_0,
        ) is Some && out@ == wall_line_bytes(spec_convert(parse_line_spec(s@)->Some_0)->Some_0),
        parse_line_spec(s@) is Some && spec_convert(parse_line_spec(s@)->Some_0) is Some ==> r
            is Ok,
        parse_line_spec(s@) is None ==> r == Result::<Vec<u8>, MazeError>::Err(MazeError::Parse),
        parse_line_spec(s@) is Some && spec_convert(parse_line_spec(s@)->Some_0) is None ==> r
            == Result::<Vec<u8>, MazeError>::Err(
            if spec_tile_adjacent(parse_line_spec(s@)->Some_0) {
                MazeError::Parse
            } else {
                MazeError::Adjacency
            },
        ),
{
    let w = match parse_wall_line(s) {
        Ok(w) => w,
        Err(e) => {
            return Err(e);
        },
    };
    let c = match convert_wall(&w) {
        Ok(c) => c,
        Err(e) => {
            return Err(e);
        },
    };
    Ok(format_wall_line(&c))
}

} // verus!
