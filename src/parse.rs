use vstd::prelude::*;

verus! {

use vstd::slice::slice_subrange;

/// ASCII whitespace: space, tab, line feed, vertical tab, form feed, carriage return.
pub open spec fn is_space(b: u8) -> bool {
    b == 32 || (9 <= b && b <= 13)
}

pub open spec fn is_digit(b: u8) -> bool {
    48 <= b && b <= 57
}

pub open spec fn all_digits(s: Seq<u8>) -> bool {
    forall|i: int| 0 <= i < s.len() ==> #[trigger] is_digit(s[i])
}

/// The number that a run of decimal digits denotes.
pub open spec fn digits_value(s: Seq<u8>) -> nat
    decreases s.len(),
{
    if s.len() == 0 {
        0
    } else {
        digits_value(s.drop_last()) * 10 + (s.last() - 48) as nat
    }
}

/// An unsigned 32-bit decimal: an optional `+`, then at least one digit, with a value
/// that fits in `u32`.
pub open spec fn unsigned_text(s: Seq<u8>) -> Option<u32> {
    let d = if s.len() > 0 && s[0] == 43 {
        s.subrange(1, s.len() as int)
    } else {
        s
    };
    if d.len() > 0 && all_digits(d) && digits_value(d) <= u32::MAX {
        Some(digits_value(d) as u32)
    } else {
        None
    }
}

/// The first index at or after `i` that does not hold whitespace.
pub open spec fn skip_spaces(s: Seq<u8>, i: int) -> int
    decreases s.len() - i,
{
    if 0 <= i < s.len() && is_space(s[i]) {
        skip_spaces(s, i + 1)
    } else {
        i
    }
}

/// The first index at or after `i` that holds whitespace, or the end.
pub open spec fn skip_word(s: Seq<u8>, i: int) -> int
    decreases s.len() - i,
{
    if 0 <= i < s.len() && !is_space(s[i]) {
        skip_word(s, i + 1)
    } else {
        i
    }
}

/// The curve point that a line of a curve file gives: its first two whitespace-separated
/// words, both unsigned decimals. Words after the second are ignored; a line without
/// two such words gives no point.
pub open spec fn point_of_line(s: Seq<u8>) -> Option<(u32, u32)> {
    let a0 = skip_spaces(s, 0);
    let a1 = skip_word(s, a0);
    let b0 = skip_spaces(s, a1);
    let b1 = skip_word(s, b0);
    match (unsigned_text(s.subrange(a0, a1)), unsigned_text(s.subrange(b0, b1))) {
        (Some(a), Some(b)) => Some((a, b)),
        _ => None,
    }
}

/// The first index at or after `i` that holds a line feed, or the end.
pub open spec fn line_end(s: Seq<u8>, i: int) -> int
    decreases s.len() - i,
{
    if 0 <= i < s.len() && s[i] != 10 {
        line_end(s, i + 1)
    } else {
        i
    }
}

/// The curve points of the lines that start at `i` or later, in order; lines that give
/// no point are passed over.
pub open spec fn points_from(s: Seq<u8>, i: int) -> Seq<(u32, u32)>
    decreases s.len() - i,
{
    if i < 0 || i >= s.len() {
        Seq::empty()
    } else {
        let e = line_end(s, i);
        proof {
            lemma_line_end_bounds(s, i);
        }
        let rest = if e < s.len() {
            points_from(s, e + 1)
        } else {
            Seq::empty()
        };
        match point_of_line(s.subrange(i, e)) {
            Some(p) => seq![p] + rest,
            None => rest,
        }
    }
}

/// The curve points of a whole curve file.
pub open spec fn points_of_text(s: Seq<u8>) -> Seq<(u32, u32)> {
    points_from(s, 0)
}

/// A line that starts at `i` ends at or after `i`, and within the text.
pub proof fn lemma_line_end_bounds(s: Seq<u8>, i: int)
    requires
        0 <= i <= s.len(),
    ensures
        i <= line_end(s, i) <= s.len(),
    decreases s.len() - i,
{
    if i < s.len() && s[i] != 10 {
        lemma_line_end_bounds(s, i + 1);
    }
}

/// A run of digits is worth at least as much as any of its prefixes.
proof fn lemma_prefix_value(t: Seq<u8>, k: int)
    requires
        0 <= k <= t.len(),
        all_digits(t),
    ensures
        digits_value(t.subrange(0, k)) <= digits_value(t),
    decreases t.len(),
{
    if k < t.len() {
        let p = t.drop_last();
        assert(all_digits(p)) by {
            assert forall|i: int| 0 <= i < p.len() implies #[trigger] is_digit(p[i]) by {
                assert(is_digit(t[i]));
            }
        }
        assert(is_digit(t[t.len() - 1]));
        assert(p.subrange(0, k) =~= t.subrange(0, k));
        lemma_prefix_value(p, k);
    } else {
        assert(t.subrange(0, k) =~= t);
    }
}

fn space_byte(b: u8) -> (r: bool)
    ensures
        r == is_space(b),
{
    b == 32 || (9 <= b && b <= 13)
}

fn skip_spaces_from(s: &[u8], i: usize) -> (r: usize)
    requires
        i <= s@.len(),
    ensures
        r == skip_spaces(s@, i as int),
        i <= r <= s@.len(),
{
    let mut j: usize = i;
    while j < s.len() && space_byte(s[j])
        invariant
            i <= j <= s@.len(),
            skip_spaces(s@, i as int) == skip_spaces(s@, j as int),
        decreases s@.len() - j,
    {
        j = j + 1;
    }
    j
}

fn skip_word_from(s: &[u8], i: usize) -> (r: usize)
    requires
        i <= s@.len(),
    ensures
        r == skip_word(s@, i as int),
        i <= r <= s@.len(),
{
    let mut j: usize = i;
    while j < s.len() && !space_byte(s[j])
        invariant
            i <= j <= s@.len(),
            skip_word(s@, i as int) == skip_word(s@, j as int),
        decreases s@.len() - j,
    {
        j = j + 1;
    }
    j
}

/// Reads `s[start..end]` as an unsigned 32-bit decimal.
pub fn parse_unsigned(s: &[u8], start: usize, end: usize) -> (r: Option<u32>)
    requires
        start <= end <= s@.len(),
    ensures
        r == unsigned_text(s@.subrange(start as int, end as int)),
{
    let ghost w = s@.subrange(start as int, end as int);
    let mut i: usize = start;
    if i < end && s[i] == 43 {
        i = i + 1;
    }
    let ghost d0 = i as int;
    let ghost d = s@.subrange(d0, end as int);
    proof {
        if start < end && s@[start as int] == 43 {
            assert(w.subrange(1, w.len() as int) =~= d);
        } else {
            assert(w =~= d);
        }
    }
    if i == end {
        return None;
    }
    let mut acc: u64 = 0;
    while i < end
        invariant
            start <= d0 <= i <= end <= s@.len(),
            d0 < end,
            d == s@.subrange(d0, end as int),
            w == s@.subrange(start as int, end as int),
            acc == digits_value(s@.subrange(d0, i as int)),
            acc <= u32::MAX,
            all_digits(s@.subrange(d0, i as int)),
            unsigned_text(w) == (if all_digits(d) && digits_value(d) <= u32::MAX {
                Some(digits_value(d) as u32)
            } else {
                None::<u32>
            }),
        decreases end - i,
    {
        let b = s[i];
        if b < 48 || b > 57 {
            proof {
                assert(d[i - d0] == b);
                assert(!is_digit(d[i - d0]));
                assert(!all_digits(d));
            }
            return None;
        }
        let next: u64 = acc * 10 + (b - 48) as u64;
        let ghost p = s@.subrange(d0, i + 1);
        proof {
            assert(p.drop_last() =~= s@.subrange(d0, i as int));
            assert(p.last() == b);
            assert(digits_value(p) == next);
            assert forall|k: int| 0 <= k < p.len() implies #[trigger] is_digit(p[k]) by {
                if k < p.len() - 1 {
                    assert(is_digit(s@.subrange(d0, i as int)[k]));
                }
            }
        }
        if next > 4294967295u64 {
            proof {
                if all_digits(d) {
                    assert(d.subrange(0, p.len() as int) =~= p);
                    lemma_prefix_value(d, p.len() as int);
                }
                assert(!(all_digits(d) && digits_value(d) <= u32::MAX));
            }
            return None;
        }
        acc = next;
        i = i + 1;
    }
    proof {
        assert(s@.subrange(d0, i as int) =~= d);
    }
    Some(acc as u32)
}

fn line_end_from(s: &[u8], i: usize) -> (r: usize)
    requires
        i <= s@.len(),
    ensures
        r == line_end(s@, i as int),
        i <= r <= s@.len(),
{
    let mut j: usize = i;
    while j < s.len() && s[j] != 10
        invariant
            i <= j <= s@.len(),
            line_end(s@, i as int) == line_end(s@, j as int),
        decreases s@.len() - j,
    {
        j = j + 1;
    }
    j
}

/// Reads the curve points of a curve file, one per line that holds one.
pub fn parse_points(text: &[u8]) -> (r: Vec<(u32, u32)>)
    ensures
        r@ == points_of_text(text@),
{
    let mut r: Vec<(u32, u32)> = Vec::new();
    let mut i: usize = 0;
    while i < text.len()
        invariant
            i <= text@.len(),
            r@ + points_from(text@, i as int) == points_of_text(text@),
        decreases text@.len() - i,
    {
        let e = line_end_from(text, i);
        let ghost rest = if e < text@.len() {
            points_from(text@, e + 1)
        } else {
            Seq::<(u32, u32)>::empty()
        };
        let line = slice_subrange(text, i, e);
        proof {
            assert(line@ =~= text@.subrange(i as int, e as int));
        }
        let ghost before = r@;
        match parse_point(line) {
            Some(p) => {
                r.push(p);
                assert(before + (seq![p] + rest) =~= r@ + rest);
            },
            None => {},
        }
        if e < text.len() {
            i = e + 1;
        } else {
            assert(points_from(text@, e as int) =~= Seq::<(u32, u32)>::empty());
            assert(r@ + points_from(text@, e as int) =~= r@);
            i = e;
        }
    }
    assert(r@ + points_from(text@, i as int) =~= r@);
    r
}

/// Reads the curve point of one line of a curve file.
pub fn parse_point(line: &[u8]) -> (r: Option<(u32, u32)>)
    ensures
        r == point_of_line(line@),
{
    let a0 = skip_spaces_from(line, 0);
    let a1 = skip_word_from(line, a0);
    let b0 = skip_spaces_from(line, a1);
    let b1 = skip_word_from(line, b0);
    match (parse_unsigned(line, a0, a1), parse_unsigned(line, b0, b1)) {
        (Some(a), Some(b)) => Some((a, b)),
        _ => None,
    }
}

} // verus!
