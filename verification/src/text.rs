//! Character-level text handling: line splitting, trimming, property-line
//! splitting, decimal integers, and joining, each stated over `Seq<char>`.
use vstd::prelude::*;

verus! {

// ---------------------------------------------------------------------------
// Specifications
// ---------------------------------------------------------------------------

/// Unicode `White_Space`, the set that `char::is_whitespace` accepts.
pub open spec fn is_whitespace(c: char) -> bool {
    ||| c == '\t'
    ||| c == '\n'
    ||| c == '\x0B'
    ||| c == '\x0C'
    ||| c == '\r'
    ||| c == ' '
    ||| c == '\u{85}'
    ||| c == '\u{A0}'
    ||| c == '\u{1680}'
    ||| ('\u{2000}' <= c && c <= '\u{200A}')
    ||| c == '\u{2028}'
    ||| c == '\u{2029}'
    ||| c == '\u{202F}'
    ||| c == '\u{205F}'
    ||| c == '\u{3000}'
}

/// `s` without its leading whitespace.
pub open spec fn trim_start(s: Seq<char>) -> Seq<char>
    decreases s.len(),
{
    if s.len() > 0 && is_whitespace(s[0]) {
        trim_start(s.drop_first())
    } else {
        s
    }
}

/// `s` without its trailing whitespace.
pub open spec fn trim_end(s: Seq<char>) -> Seq<char>
    decreases s.len(),
{
    if s.len() > 0 && is_whitespace(s.last()) {
        trim_end(s.drop_last())
    } else {
        s
    }
}

/// `s` without leading and trailing whitespace (`str::trim`).
pub open spec fn trim(s: Seq<char>) -> Seq<char> {
    trim_end(trim_start(s))
}

/// The index of the first occurrence of `c` in `s`.
pub open spec fn find_char(s: Seq<char>, c: char) -> Option<int>
    decreases s.len(),
{
    if s.len() == 0 {
        None
    } else if s[0] == c {
        Some(0)
    } else {
        match find_char(s.drop_first(), c) {
            Some(i) => Some(i + 1),
            None => None,
        }
    }
}

/// A line with the carriage return of a `\r\n` ending removed.
pub open spec fn strip_cr(line: Seq<char>) -> Seq<char> {
    if line.len() > 0 && line.last() == '\r' {
        line.drop_last()
    } else {
        line
    }
}

/// The lines of `s` as `str::lines` gives them: split at `\n`, a `\r`
/// right before a `\n` dropped, and no empty line after a final `\n`.
pub open spec fn lines(s: Seq<char>) -> Seq<Seq<char>>
    decreases s.len(),
{
    if s.len() == 0 {
        seq![]
    } else {
        match find_char(s, '\n') {
            None => seq![s],
            Some(i) => {
                proof {
                    lemma_find_char_bounds(s, '\n');
                }
                seq![strip_cr(s.take(i))] + lines(s.skip(i + 1))
            },
        }
    }
}

/// `lines` joined with `sep` between consecutive lines (`[&str]::join`).
pub open spec fn join(lines: Seq<Seq<char>>, sep: char) -> Seq<char>
    decreases lines.len(),
{
    if lines.len() == 0 {
        seq![]
    } else if lines.len() == 1 {
        lines[0]
    } else {
        join(lines.drop_last(), sep).push(sep) + lines.last()
    }
}

/// A `key: value` line split at its first colon, both sides trimmed.
pub open spec fn split_property(line: Seq<char>) -> Option<(Seq<char>, Seq<char>)> {
    match find_char(line, ':') {
        None => None,
        Some(i) => Some((trim(line.take(i)), trim(line.skip(i + 1)))),
    }
}

/// Why a decimal integer failed to parse, as `core::num::IntErrorKind`.
#[derive(PartialEq, Eq, Structural, Clone, Copy, Debug)]
pub enum IntParseError {
    Empty,
    InvalidDigit,
    PosOverflow,
}

pub open spec fn is_digit(c: char) -> bool {
    '0' <= c && c <= '9'
}

pub open spec fn digit_value(c: char) -> nat {
    (c as int - '0' as int) as nat
}

/// Digits read from the left onto `acc`, as `u32::from_str` reads them.
pub open spec fn parse_digits(ds: Seq<char>, acc: nat) -> Result<u32, IntParseError>
    decreases ds.len(),
{
    if ds.len() == 0 {
        Ok(acc as u32)
    } else if !is_digit(ds[0]) {
        Err(IntParseError::InvalidDigit)
    } else if acc * 10 + digit_value(ds[0]) > u32::MAX {
        Err(IntParseError::PosOverflow)
    } else {
        parse_digits(ds.drop_first(), acc * 10 + digit_value(ds[0]))
    }
}

/// `u32::from_str`: an optional `+`, then decimal digits.
pub open spec fn parse_u32(s: Seq<char>) -> Result<u32, IntParseError> {
    if s.len() == 0 {
        Err(IntParseError::Empty)
    } else if s[0] == '+' {
        if s.len() == 1 {
            Err(IntParseError::InvalidDigit)
        } else {
            parse_digits(s.drop_first(), 0)
        }
    } else {
        parse_digits(s, 0)
    }
}

/// The decimal digit for `d < 10`.
pub open spec fn digit_char(d: nat) -> char {
    (d + '0' as nat) as char
}

/// `n` written in decimal, as `Display` writes an unsigned integer.
pub open spec fn decimal(n: nat) -> Seq<char>
    decreases n,
{
    if n < 10 {
        seq![digit_char(n)]
    } else {
        decimal(n / 10).push(digit_char(n % 10))
    }
}

/// The text that `ParseIntError` displays for each kind.
pub open spec fn int_error_message(e: IntParseError) -> Seq<char> {
    match e {
        IntParseError::Empty => "cannot parse integer from empty string"@,
        IntParseError::InvalidDigit => "invalid digit found in string"@,
        IntParseError::PosOverflow => "number too large to fit in target type"@,
    }
}

// ---------------------------------------------------------------------------
// Lemmas
// ---------------------------------------------------------------------------

pub proof fn lemma_find_char_bounds(s: Seq<char>, c: char)
    ensures
        find_char(s, c) matches Some(i) ==> 0 <= i < s.len() && s[i] == c && (forall|k: int|
            0 <= k < i ==> s[k] != c),
        find_char(s, c) is None ==> forall|k: int| 0 <= k < s.len() ==> s[k] != c,
    decreases s.len(),
{
    if s.len() > 0 && s[0] != c {
        lemma_find_char_bounds(s.drop_first(), c);
        assert forall|k: int| 1 <= k < s.len() implies s[k] == s.drop_first()[k - 1] by {}
    }
}

pub proof fn lemma_find_char_at(s: Seq<char>, c: char, i: int)
    requires
        0 <= i < s.len(),
        s[i] == c,
        forall|k: int| 0 <= k < i ==> s[k] != c,
    ensures
        find_char(s, c) == Some(i),
    decreases i,
{
    if i > 0 {
        lemma_find_char_at(s.drop_first(), c, i - 1);
    }
}

pub proof fn lemma_find_char_none(s: Seq<char>, c: char)
    requires
        forall|k: int| 0 <= k < s.len() ==> s[k] != c,
    ensures
        find_char(s, c) is None,
    decreases s.len(),
{
    if s.len() > 0 {
        lemma_find_char_none(s.drop_first(), c);
    }
}

/// `s` split at every `\n` (`str::split('\n')`).
pub open spec fn pieces(s: Seq<char>) -> Seq<Seq<char>>
    decreases s.len(),
{
    match find_char(s, '\n') {
        None => seq![s],
        Some(i) => {
            proof {
                lemma_find_char_bounds(s, '\n');
            }
            seq![s.take(i)] + pieces(s.skip(i + 1))
        },
    }
}

pub open spec fn has_no_cr(s: Seq<char>) -> bool {
    forall|i: int| 0 <= i < s.len() ==> s[i] != '\r'
}

/// Text followed by a line break: its lines are its pieces, then the lines
/// of what follows.
pub proof fn lemma_lines_after(x: Seq<char>, t: Seq<char>)
    requires
        has_no_cr(x),
    ensures
        lines(x + seq!['\n'] + t) == pieces(x) + lines(t),
    decreases x.len(),
{
    let w = x + seq!['\n'] + t;
    lemma_find_char_bounds(x, '\n');
    match find_char(x, '\n') {
        None => {
            lemma_find_char_at(w, '\n', x.len() as int);
            assert(w.take(x.len() as int) =~= x);
            assert(w.skip(x.len() as int + 1) =~= t);
            if x.len() > 0 {
                assert(x[x.len() - 1] != '\r');
            }
            assert(strip_cr(x) == x);
        },
        Some(i) => {
            lemma_find_char_at(w, '\n', i);
            assert(w.take(i) =~= x.take(i));
            assert(w.skip(i + 1) =~= x.skip(i + 1) + seq!['\n'] + t);
            if i > 0 {
                assert(x[i - 1] != '\r');
            }
            assert(strip_cr(x.take(i)) == x.take(i));
            lemma_lines_after(x.skip(i + 1), t);
            assert(lines(w) =~= pieces(x) + lines(t));
        },
    }
}

/// Joining the pieces of a text with line breaks gives the text back.
pub proof fn lemma_join_pieces(x: Seq<char>)
    ensures
        join(pieces(x), '\n') == x,
    decreases x.len(),
{
    lemma_find_char_bounds(x, '\n');
    match find_char(x, '\n') {
        None => {},
        Some(i) => {
            let rest = x.skip(i + 1);
            lemma_join_pieces(rest);
            lemma_join_prepend(x.take(i), pieces(rest), '\n');
            assert(x =~= x.take(i).push('\n') + rest);
        },
    }
}

/// Joining lines with one more line in front.
pub proof fn lemma_join_prepend(a: Seq<char>, ls: Seq<Seq<char>>, sep: char)
    requires
        ls.len() > 0,
    ensures
        join(seq![a] + ls, sep) == a.push(sep) + join(ls, sep),
    decreases ls.len(),
{
    let all = seq![a] + ls;
    if ls.len() == 1 {
        assert(all.drop_last() =~= seq![a]);
        assert(all.last() == ls[0]);
        assert(join(seq![a], sep) == a);
        assert(join(ls, sep) == ls[0]);
        assert(join(all, sep) == join(all.drop_last(), sep).push(sep) + all.last());
    } else {
        lemma_join_prepend(a, ls.drop_last(), sep);
        assert(all.drop_last() =~= seq![a] + ls.drop_last());
        assert(all.last() == ls.last());
        assert(join(all, sep) =~= a.push(sep) + join(ls, sep));
    }
}

// ---------------------------------------------------------------------------
// Trusted item
// ---------------------------------------------------------------------------

/// `String::push`: appends one character at the end of the string.
#[verifier::external_body]
pub(crate) fn push_char(s: &mut String, c: char)
    ensures
        final(s)@ == old(s)@.push(c),
{
    s.push(c);
}

// ---------------------------------------------------------------------------
// Executable functions
// ---------------------------------------------------------------------------

/// The characters of `s`, in order.
pub fn str_chars(s: &str) -> (res: Vec<char>)
    ensures
        res@ == s@,
{
    let mut res: Vec<char> = Vec::new();
    for c in it: s.chars()
        invariant
            res@ == it.seq().take(it.index() as int),
    {
        res.push(c);
    }
    res
}

/// The characters `v[lo..hi]` as a `String`.
pub fn string_from_range(v: &Vec<char>, lo: usize, hi: usize) -> (res: String)
    requires
        lo <= hi <= v.len(),
    ensures
        res@ == v@.subrange(lo as int, hi as int),
{
    let mut res = String::new();
    let mut i = lo;
    while i < hi
        invariant
            lo <= i <= hi <= v.len(),
            res@ == v@.subrange(lo as int, i as int),
        decreases hi - i,
    {
        push_char(&mut res, v[i]);
        assert(v@.subrange(lo as int, i + 1) == v@.subrange(lo as int, i as int).push(v@[i as int]));
        i += 1;
    }
    res
}

/// Whether `v[lo..hi]` reads `lit`.
pub fn range_eq_str(v: &Vec<char>, lo: usize, hi: usize, lit: &str) -> (res: bool)
    requires
        lo <= hi <= v.len(),
    ensures
        res == (v@.subrange(lo as int, hi as int) == lit@),
{
    let l = str_chars(lit);
    range_eq_chars(v, lo, hi, &l)
}

/// Whether `v[lo..hi]` equals `w`.
pub fn range_eq_chars(v: &Vec<char>, lo: usize, hi: usize, w: &Vec<char>) -> (res: bool)
    requires
        lo <= hi <= v.len(),
    ensures
        res == (v@.subrange(lo as int, hi as int) == w@),
{
    if hi - lo != w.len() {
        return false;
    }
    let mut i: usize = 0;
    while i < w.len()
        invariant
            lo <= hi <= v.len(),
            hi - lo == w.len(),
            i <= w.len(),
            forall|k: int| 0 <= k < i ==> v@[lo + k] == w@[k],
        decreases w.len() - i,
    {
        if v[lo + i] != w[i] {
            assert(v@.subrange(lo as int, hi as int)[i as int] != w@[i as int]);
            return false;
        }
        i += 1;
    }
    assert(v@.subrange(lo as int, hi as int) =~= w@);
    true
}

/// Executable `is_whitespace`.
pub fn char_is_whitespace(c: char) -> (res: bool)
    ensures
        res == is_whitespace(c),
{
    c == '\t' || c == '\n' || c == '\x0B' || c == '\x0C' || c == '\r' || c == ' ' || c == '\u{85}'
        || c == '\u{A0}' || c == '\u{1680}' || ('\u{2000}' <= c && c <= '\u{200A}') || c
        == '\u{2028}' || c == '\u{2029}' || c == '\u{202F}' || c == '\u{205F}' || c == '\u{3000}'
}

/// The bounds of `trim(v[lo..hi])` inside `v`.
pub fn trim_range(v: &Vec<char>, lo: usize, hi: usize) -> (res: (usize, usize))
    requires
        lo <= hi <= v.len(),
    ensures
        lo <= res.0 <= res.1 <= hi,
        v@.subrange(res.0 as int, res.1 as int) == trim(v@.subrange(lo as int, hi as int)),
{
    let mut a = lo;
    while a < hi && char_is_whitespace(v[a])
        invariant
            lo <= a <= hi <= v.len(),
            trim_start(v@.subrange(lo as int, hi as int)) == trim_start(
                v@.subrange(a as int, hi as int),
            ),
        decreases hi - a,
    {
        assert(v@.subrange(a as int, hi as int).drop_first() =~= v@.subrange(a + 1, hi as int));
        a += 1;
    }
    let mut b = hi;
    while b > a && char_is_whitespace(v[b - 1])
        invariant
            lo <= a <= b <= hi <= v.len(),
            trim_end(v@.subrange(a as int, hi as int)) == trim_end(v@.subrange(a as int, b as int)),
        decreases b - a,
    {
        assert(v@.subrange(a as int, b as int).drop_last() =~= v@.subrange(a as int, b - 1));
        b -= 1;
    }
    (a, b)
}

/// The index of the first `c` in `v[lo..hi]`, counted from `lo`.
pub fn find_in_range(v: &Vec<char>, lo: usize, hi: usize, c: char) -> (res: Option<usize>)
    requires
        lo <= hi <= v.len(),
    ensures
        match res {
            Some(i) => lo <= i < hi && find_char(v@.subrange(lo as int, hi as int), c) == Some(
                i - lo,
            ),
            None => find_char(v@.subrange(lo as int, hi as int), c) is None,
        },
{
    let mut i = lo;
    while i < hi
        invariant
            lo <= i <= hi <= v.len(),
            forall|k: int| lo <= k < i ==> v@[k] != c,
        decreases hi - i,
    {
        if v[i] == c {
            proof {
                lemma_find_char_at(v@.subrange(lo as int, hi as int), c, i - lo);
            }
            return Some(i);
        }
        i += 1;
    }
    proof {
        lemma_find_char_none(v@.subrange(lo as int, hi as int), c);
    }
    None
}


/// The pieces of `v` that `rs` delimits.
pub open spec fn range_views(v: Seq<char>, rs: Seq<(usize, usize)>) -> Seq<Seq<char>> {
    rs.map_values(|r: (usize, usize)| v.subrange(r.0 as int, r.1 as int))
}

/// The piece of `v` that `r` delimits, if any.
pub open spec fn opt_range_view(v: Seq<char>, r: Option<(usize, usize)>) -> Option<Seq<char>> {
    match r {
        Some(r) => Some(v.subrange(r.0 as int, r.1 as int)),
        None => None,
    }
}

/// A range, if any, that lies inside a text of length `n`.
pub open spec fn opt_range_within(r: Option<(usize, usize)>, n: nat) -> bool {
    match r {
        Some(r) => r.0 <= r.1 <= n,
        None => true,
    }
}

/// Ranges that lie inside a text of length `n`.
pub open spec fn ranges_within(rs: Seq<(usize, usize)>, n: nat) -> bool {
    forall|i: int| 0 <= i < rs.len() ==> (#[trigger] rs[i]).0 <= rs[i].1 <= n
}

/// The bounds of each of `lines(v)` inside `v`.
pub fn line_ranges(v: &Vec<char>) -> (res: Vec<(usize, usize)>)
    ensures
        ranges_within(res@, v@.len()),
        range_views(v@, res@) == lines(v@),
{
    let n = v.len();
    let mut res: Vec<(usize, usize)> = Vec::new();
    let mut pos: usize = 0;
    assert(v@.skip(0) =~= v@);
    while pos < n
        invariant
            n == v.len(),
            pos <= n,
            ranges_within(res@, n as nat),
            lines(v@) == range_views(v@, res@) + lines(v@.skip(pos as int)),
        decreases n - pos,
    {
        let ghost rest = v@.skip(pos as int);
        assert(rest =~= v@.subrange(pos as int, n as int));
        let ghost old_res = res@;
        match find_in_range(v, pos, n, '\n') {
            Some(j) => {
                let e = if j > pos && v[j - 1] == '\r' {
                    j - 1
                } else {
                    j
                };
                assert(rest.take(j - pos) =~= v@.subrange(pos as int, j as int));
                assert(v@.subrange(pos as int, e as int) == strip_cr(rest.take(j - pos))) by {
                    if j > pos && v@[j - 1] == '\r' {
                        assert(v@.subrange(pos as int, e as int) =~= v@.subrange(
                            pos as int,
                            j as int,
                        ).drop_last());
                    }
                }
                assert(rest.skip(j - pos + 1) =~= v@.skip(j + 1));
                res.push((pos, e));
                assert(range_views(v@, res@) =~= range_views(v@, old_res).push(
                    v@.subrange(pos as int, e as int),
                ));
                assert(lines(rest) == seq![strip_cr(rest.take(j - pos))] + lines(
                    rest.skip(j - pos + 1),
                ));
                pos = j + 1;
            },
            None => {
                res.push((pos, n));
                assert(range_views(v@, res@) =~= range_views(v@, old_res).push(rest));
                assert(lines(rest) == seq![rest]);
                assert(v@.skip(n as int) =~= Seq::<char>::empty());
                pos = n;
            },
        }
        assert(lines(v@) == range_views(v@, res@) + lines(v@.skip(pos as int)));
    }
    assert(v@.skip(n as int) =~= Seq::<char>::empty());
    assert(lines(v@) =~= range_views(v@, res@));
    res
}

/// `v[lo..hi]` read as a `u32`, as `u32::from_str` reads it.
pub fn parse_u32_range(v: &Vec<char>, lo: usize, hi: usize) -> (res: Result<u32, IntParseError>)
    requires
        lo <= hi <= v.len(),
    ensures
        res == parse_u32(v@.subrange(lo as int, hi as int)),
{
    let ghost s = v@.subrange(lo as int, hi as int);
    if lo == hi {
        return Err(IntParseError::Empty);
    }
    let mut i = lo;
    assert(s[0] == v@[lo as int]);
    if v[lo] == '+' {
        if hi - lo == 1 {
            return Err(IntParseError::InvalidDigit);
        }
        i = lo + 1;
        assert(s.drop_first() =~= v@.subrange(i as int, hi as int));
    }
    let mut acc: u32 = 0;
    while i < hi
        invariant
            lo <= i <= hi <= v.len(),
            s == v@.subrange(lo as int, hi as int),
            parse_u32(s) == parse_digits(v@.subrange(i as int, hi as int), acc as nat),
        decreases hi - i,
    {
        let ghost rest = v@.subrange(i as int, hi as int);
        let c = v[i];
        assert(rest.len() > 0 && rest[0] == c);
        if !('0' <= c && c <= '9') {
            return Err(IntParseError::InvalidDigit);
        }
        let d = (c as u32) - ('0' as u32);
        assert(d == digit_value(c));
        assert((acc > 429496729 || (acc == 429496729 && d > 5)) <==> acc * 10 + d > u32::MAX)
            by (nonlinear_arith)
            requires
                d < 10,
        ;
        if acc > 429496729 || (acc == 429496729 && d > 5) {
            return Err(IntParseError::PosOverflow);
        }
        assert(rest.drop_first() =~= v@.subrange(i + 1, hi as int));
        acc = acc * 10 + d;
        i += 1;
    }
    proof { acc_ok(v, i, hi, acc); }
    Ok(acc)
}

proof fn acc_ok(v: &Vec<char>, i: usize, hi: usize, acc: u32)
    requires
        i == hi <= v.len(),
    ensures
        parse_digits(v@.subrange(i as int, hi as int), acc as nat) == Ok::<u32, IntParseError>(
            acc,
        ),
{
    assert(v@.subrange(i as int, hi as int).len() == 0);
}

/// Appends `decimal(n)` to `s`.
pub fn push_decimal(s: &mut String, n: u32)
    ensures
        final(s)@ == old(s)@ + decimal(n as nat),
    decreases n,
{
    if n >= 10 {
        push_decimal(s, n / 10);
    }
    let d = (n % 10) as u8;
    let c = (48u8 + d) as char;
    assert(c == digit_char((n % 10) as nat));
    push_char(s, c);
    assert(old(s)@ + decimal(n as nat) =~= final(s)@) by {
        if n >= 10 {
            assert(decimal(n as nat) == decimal((n / 10) as nat).push(
                digit_char((n % 10) as nat),
            ));
        }
    }
}

/// The pieces of `v` that `rs[0..k]` delimits, joined with `sep`.
pub fn join_ranges(v: &Vec<char>, rs: &Vec<(usize, usize)>, k: usize, sep: char) -> (res: String)
    requires
        k <= rs.len(),
        ranges_within(rs@, v@.len()),
    ensures
        res@ == join(range_views(v@, rs@).take(k as int), sep),
{
    let mut res = String::new();
    let mut i: usize = 0;
    while i < k
        invariant
            i <= k <= rs.len(),
            ranges_within(rs@, v@.len()),
            res@ == join(range_views(v@, rs@).take(i as int), sep),
        decreases k - i,
    {
        let ghost before = res@;
        if i > 0 {
            push_char(&mut res, sep);
        }
        let (a, b) = rs[i];
        let piece = string_from_range(v, a, b);
        res.append(piece.as_str());
        let ghost views = range_views(v@, rs@);
        assert(views.take(i + 1).drop_last() =~= views.take(i as int));
        assert(views.take(i + 1).last() == v@.subrange(a as int, b as int));
        if i == 0 {
            assert(views.take(1) =~= seq![views[0]]);
        }
        i += 1;
    }
    res
}

/// The text that `ParseIntError` displays for `k`.
pub fn int_error_text(k: IntParseError) -> (res: &'static str)
    ensures
        res@ == int_error_message(k),
{
    match k {
        IntParseError::Empty => "cannot parse integer from empty string",
        IntParseError::InvalidDigit => "invalid digit found in string",
        IntParseError::PosOverflow => "number too large to fit in target type",
    }
}

} // verus!
