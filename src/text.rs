//! Character-level helpers shared by the configuration parsers.
use vstd::prelude::*;

verus! {

/// Index of the first occurrence of `c` in `s`, or -1 when `c` does not occur.
pub open spec fn find_char(s: Seq<char>, c: char) -> int
    decreases s.len(),
{
    if s.len() == 0 {
        -1
    } else if s[0] == c {
        0
    } else {
        let r = find_char(s.drop_first(), c);
        if r < 0 {
            -1
        } else {
            r + 1
        }
    }
}

/// Split `s` on every occurrence of `sep`; always yields at least one piece.
pub open spec fn split_on(s: Seq<char>, sep: char) -> Seq<Seq<char>>
    decreases s.len(),
{
    let i = find_char(s, sep);
    if i < 0 {
        seq![s]
    } else {
        proof {
            lemma_find_char_bounds(s, sep);
        }
        seq![s.take(i)] + split_on(s.skip(i + 1), sep)
    }
}

/// Join `pieces` with `sep` between consecutive pieces.
pub open spec fn join_with(pieces: Seq<Seq<char>>, sep: char) -> Seq<char>
    decreases pieces.len(),
{
    if pieces.len() == 0 {
        Seq::empty()
    } else if pieces.len() == 1 {
        pieces[0]
    } else {
        pieces[0] + seq![sep] + join_with(pieces.drop_first(), sep)
    }
}

pub proof fn lemma_find_char_bounds(s: Seq<char>, c: char)
    ensures
        -1 <= find_char(s, c) < s.len(),
        find_char(s, c) >= 0 ==> s[find_char(s, c)] == c,
        find_char(s, c) >= 0 ==> forall|k: int| 0 <= k < find_char(s, c) ==> s[k] != c,
        find_char(s, c) < 0 ==> forall|k: int| 0 <= k < s.len() ==> s[k] != c,
    decreases s.len(),
{
    if s.len() > 0 && s[0] != c {
        lemma_find_char_bounds(s.drop_first(), c);
        assert forall|k: int| 0 < k < s.len() implies s[k] == s.drop_first()[k - 1] by {}
    }
}

/// The first index is determined by the characters scanned up to it.
pub proof fn lemma_find_char_at(s: Seq<char>, c: char, k: int)
    requires
        0 <= k <= s.len(),
        forall|j: int| 0 <= j < k ==> s[j] != c,
        k == s.len() || s[k] == c,
    ensures
        find_char(s, c) == if k == s.len() { -1 } else { k },
    decreases s.len(),
{
    if s.len() > 0 && k > 0 {
        assert forall|j: int| 0 <= j < k - 1 implies s.drop_first()[j] != c by {
            assert(s.drop_first()[j] == s[j + 1]);
        }
        lemma_find_char_at(s.drop_first(), c, k - 1);
    }
}

/// A sequence without `c` has no occurrence of it.
pub proof fn lemma_find_char_absent(s: Seq<char>, c: char)
    requires
        !s.contains(c),
    ensures
        find_char(s, c) == -1,
{
    lemma_find_char_at(s, c, s.len() as int);
}

/// The first occurrence of `c` in `a + seq![c] + b` when `a` has none.
pub proof fn lemma_find_char_after(a: Seq<char>, c: char, b: Seq<char>)
    requires
        !a.contains(c),
    ensures
        find_char(a + seq![c] + b, c) == a.len(),
{
    let s = a + seq![c] + b;
    assert forall|j: int| 0 <= j < a.len() implies s[j] != c by {
        assert(s[j] == a[j]);
    }
    lemma_find_char_at(s, c, a.len() as int);
}

/// Splitting a join gives back the pieces, when no piece holds the separator.
pub proof fn lemma_split_join(pieces: Seq<Seq<char>>, sep: char)
    requires
        pieces.len() > 0,
        forall|i: int| 0 <= i < pieces.len() ==> !(#[trigger] pieces[i]).contains(sep),
    ensures
        split_on(join_with(pieces, sep), sep) == pieces,
    decreases pieces.len(),
{
    if pieces.len() == 1 {
        lemma_find_char_absent(pieces[0], sep);
        assert(split_on(pieces[0], sep) == seq![pieces[0]]);
        assert(pieces =~= seq![pieces[0]]);
    } else {
        let rest = pieces.drop_first();
        let tail = join_with(rest, sep);
        let s = pieces[0] + seq![sep] + tail;
        assert(join_with(pieces, sep) == s);
        lemma_find_char_after(pieces[0], sep, tail);
        lemma_find_char_bounds(s, sep);
        assert(s.take(pieces[0].len() as int) =~= pieces[0]);
        assert(s.skip(pieces[0].len() as int + 1) =~= tail);
        assert forall|i: int| 0 <= i < rest.len() implies !(#[trigger] rest[i]).contains(sep) by {
            assert(rest[i] == pieces[i + 1]);
        }
        lemma_split_join(rest, sep);
        assert(pieces =~= seq![pieces[0]] + rest);
    }
}

/// Index of the first `c` at or after `start` in `s`.
pub fn find_from(s: &str, len: usize, c: char, start: usize) -> (r: Option<usize>)
    requires
        len == s@.len(),
        start <= len,
    ensures
        match r {
            Some(i) => start <= i < len && find_char(s@.skip(start as int), c) == i - start,
            None => find_char(s@.skip(start as int), c) == -1,
        },
{
    let mut i = start;
    while i < len
        invariant
            len == s@.len(),
            start <= i <= len,
            forall|j: int| start <= j < i ==> s@[j] != c,
        decreases len - i,
    {
        if s.get_char(i) == c {
            proof {
                let t = s@.skip(start as int);
                assert forall|j: int| 0 <= j < i - start implies t[j] != c by {
                    assert(t[j] == s@[j + start]);
                }
                lemma_find_char_at(t, c, i - start);
            }
            return Some(i);
        }
        i = i + 1;
    }
    proof {
        let t = s@.skip(start as int);
        assert forall|j: int| 0 <= j < t.len() implies t[j] != c by {
            assert(t[j] == s@[j + start]);
        }
        lemma_find_char_at(t, c, t.len() as int);
    }
    None
}

/// Copy of the characters `from..to` of `s`.
pub fn substring(s: &str, from: usize, to: usize) -> (r: String)
    requires
        from <= to <= s@.len(),
    ensures
        r@ == s@.subrange(from as int, to as int),
{
    let sub = s.substring_char(from, to);
    String::from_str(sub)
}

/// Split `s` on every `sep`, as `str::split` does.
pub fn split_str(s: &str, sep: char) -> (r: Vec<String>)
    ensures
        r@.map_values(|v: String| v@) == split_on(s@, sep),
{
    let len = s.unicode_len();
    let mut out: Vec<String> = Vec::new();
    let mut start: usize = 0;
    proof {
        assert(s@.skip(0) =~= s@);
        assert(out@.map_values(|v: String| v@) + split_on(s@, sep) =~= split_on(s@, sep));
    }
    loop
        invariant
            len == s@.len(),
            start <= len,
            out@.map_values(|v: String| v@) + split_on(s@.skip(start as int), sep) == split_on(s@, sep),
        decreases len - start,
    {
        let ghost rest = s@.skip(start as int);
        match find_from(s, len, sep, start) {
            Some(i) => {
                let piece = substring(s, start, i);
                proof {
                    lemma_find_char_bounds(rest, sep);
                    assert(piece@ =~= rest.take(i - start));
                    assert(rest.skip(i - start + 1) =~= s@.skip(i + 1));
                    assert(split_on(rest, sep) == seq![rest.take(i - start)] + split_on(rest.skip(i - start + 1), sep));
                    assert(out@.push(piece).map_values(|v: String| v@) =~= out@.map_values(|v: String| v@).push(piece@));
                    assert(out@.map_values(|v: String| v@).push(piece@) + split_on(s@.skip(i + 1), sep)
                        =~= out@.map_values(|v: String| v@) + split_on(rest, sep));
                }
                out.push(piece);
                start = i + 1;
            },
            None => {
                let piece = substring(s, start, len);
                proof {
                    assert(piece@ =~= rest);
                    assert(split_on(rest, sep) == seq![rest]);
                    assert(out@.push(piece).map_values(|v: String| v@) =~= out@.map_values(|v: String| v@).push(piece@));
                    assert(out@.map_values(|v: String| v@).push(piece@) =~= out@.map_values(|v: String| v@) + split_on(rest, sep));
                }
                out.push(piece);
                return out;
            },
        }
    }
}

} // verus!

verus! {

pub open spec fn is_digit(c: char) -> bool {
    '0' <= c && c <= '9'
}

pub open spec fn all_digits(s: Seq<char>) -> bool {
    forall|i: int| 0 <= i < s.len() ==> is_digit(#[trigger] s[i])
}

/// Value of a run of decimal digits.
pub open spec fn digits_value(s: Seq<char>) -> int
    decreases s.len(),
{
    if s.len() == 0 {
        0
    } else {
        digits_value(s.drop_last()) * 10 + (s.last() as int - '0' as int)
    }
}

/// What `u32::from_str` accepts: an optional `+`, then one or more digits,
/// with a value that fits.
pub open spec fn parse_u32_spec(s: Seq<char>) -> Option<u32> {
    let d = if s.len() > 0 && s[0] == '+' { s.drop_first() } else { s };
    if d.len() > 0 && all_digits(d) && digits_value(d) <= u32::MAX {
        Some(digits_value(d) as u32)
    } else {
        None
    }
}

/// What `i64::from_str` accepts: an optional `+` or `-`, then one or more
/// digits, with a value that fits.
pub open spec fn parse_i64_spec(s: Seq<char>) -> Option<i64> {
    let neg = s.len() > 0 && s[0] == '-';
    let d = if s.len() > 0 && (s[0] == '+' || s[0] == '-') { s.drop_first() } else { s };
    let v = if neg { -digits_value(d) } else { digits_value(d) };
    if d.len() > 0 && all_digits(d) && i64::MIN <= v <= i64::MAX {
        Some(v as i64)
    } else {
        None
    }
}

pub open spec fn digit_char(d: nat) -> char {
    seq!['0', '1', '2', '3', '4', '5', '6', '7', '8', '9'][d as int]
}

/// Decimal digits of a natural number, without leading zeros.
pub open spec fn nat_digits(n: nat) -> Seq<char>
    decreases n,
{
    if n < 10 {
        seq![digit_char(n)]
    } else {
        nat_digits(n / 10) + seq![digit_char(n % 10)]
    }
}

/// Decimal form of an integer, with a leading `-` when negative.
pub open spec fn decimal(n: int) -> Seq<char> {
    if n < 0 {
        seq!['-'] + nat_digits((-n) as nat)
    } else {
        nat_digits(n as nat)
    }
}

/// Relies on `u32::from_str`: decimal digits after an optional `+`.
#[verifier::external_body]
pub fn parse_u32(s: &str) -> (r: Option<u32>)
    ensures
        r == parse_u32_spec(s@),
{
    s.parse::<u32>().ok()
}

/// Relies on `i64::from_str`: decimal digits after an optional sign.
#[verifier::external_body]
pub fn parse_i64(s: &str) -> (r: Option<i64>)
    ensures
        r == parse_i64_spec(s@),
{
    s.parse::<i64>().ok()
}

/// Relies on `Display` for `i64`: decimal digits, `-` before a negative value.
#[verifier::external_body]
pub fn i64_to_string(n: i64) -> (r: String)
    ensures
        r@ == decimal(n as int),
{
    n.to_string()
}

/// Whether a string equals a literal.
pub fn str_is(s: &str, lit: &str) -> (r: bool)
    ensures
        r == (s@ == lit@),
{
    let a = String::from_str(s);
    let b = String::from_str(lit);
    a == b
}

} // verus!

verus! {

/// The pieces of a split hold no separator, and there is at least one.
pub proof fn lemma_split_pieces(s: Seq<char>, sep: char)
    ensures
        split_on(s, sep).len() > 0,
        forall|i: int| 0 <= i < split_on(s, sep).len() ==> !(#[trigger] split_on(s, sep)[i]).contains(sep),
    decreases s.len(),
{
    lemma_find_char_bounds(s, sep);
    let i = find_char(s, sep);
    if i < 0 {
        assert(split_on(s, sep) == seq![s]);
    } else {
        let head = s.take(i);
        let rest = s.skip(i + 1);
        lemma_split_pieces(rest, sep);
        assert(split_on(s, sep) == seq![head] + split_on(rest, sep));
        assert(!head.contains(sep)) by {
            if head.contains(sep) {
                let k = choose|k: int| 0 <= k < head.len() && head[k] == sep;
                assert(s[k] == sep);
            }
        }
        assert forall|j: int| 0 <= j < split_on(s, sep).len() implies !(#[trigger] split_on(s, sep)[j]).contains(sep) by {
            if j > 0 {
                assert(split_on(s, sep)[j] == split_on(rest, sep)[j - 1]);
            }
        }
    }
}

/// Joining one more piece appends a separator and the piece.
pub proof fn lemma_join_push(pieces: Seq<Seq<char>>, x: Seq<char>, sep: char)
    ensures
        join_with(pieces.push(x), sep) == if pieces.len() == 0 {
            x
        } else {
            join_with(pieces, sep) + seq![sep] + x
        },
    decreases pieces.len(),
{
    if pieces.len() == 0 {
        assert(pieces.push(x).len() == 1);
        assert(pieces.push(x)[0] == x);
    } else if pieces.len() == 1 {
        assert(pieces.push(x).drop_first() =~= seq![x]);
        assert(join_with(seq![x], sep) == x);
        assert(pieces.push(x)[0] == pieces[0]);
    } else {
        assert(pieces.push(x).drop_first() =~= pieces.drop_first().push(x));
        lemma_join_push(pieces.drop_first(), x, sep);
        assert(pieces.push(x)[0] == pieces[0]);
        assert(join_with(pieces.push(x), sep) =~= join_with(pieces, sep) + seq![sep] + x);
    }
}

} // verus!
