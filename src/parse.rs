use vstd::prelude::*;
use crate::color::{Color, ColorError, ColorFault};

verus! {

/// Whitespace as `char::is_whitespace` has it (the Unicode `White_Space` property).
pub open spec fn is_space(c: char) -> bool {
    let u = c as u32;
    (0x9 <= u && u <= 0xd) || u == 0x20 || u == 0x85 || u == 0xa0 || u == 0x1680
        || (0x2000 <= u && u <= 0x200a) || u == 0x2028 || u == 0x2029 || u == 0x202f
        || u == 0x205f || u == 0x3000
}

/// `s` without its leading whitespace.
pub open spec fn trim_start(s: Seq<char>) -> Seq<char>
    decreases s.len(),
{
    if s.len() > 0 && is_space(s[0]) {
        trim_start(s.drop_first())
    } else {
        s
    }
}

/// `s` without its trailing whitespace.
pub open spec fn trim_end(s: Seq<char>) -> Seq<char>
    decreases s.len(),
{
    if s.len() > 0 && is_space(s.last()) {
        trim_end(s.drop_last())
    } else {
        s
    }
}

/// `s` without surrounding whitespace.
pub open spec fn trim(s: Seq<char>) -> Seq<char> {
    trim_start(trim_end(s))
}

/// `s` without one leading `#`, if it has one.
pub open spec fn strip_hash(s: Seq<char>) -> Seq<char> {
    if s.len() > 0 && s[0] == '#' {
        s.drop_first()
    } else {
        s
    }
}

/// The pieces of `s` between commas, in order; `s` with no comma is one piece.
pub open spec fn split_commas(s: Seq<char>) -> Seq<Seq<char>>
    decreases s.len(),
{
    if s.len() == 0 {
        seq![Seq::<char>::empty()]
    } else {
        let prev = split_commas(s.drop_last());
        if s.last() == ',' {
            prev.push(Seq::<char>::empty())
        } else {
            prev.update(prev.len() - 1, prev.last().push(s.last()))
        }
    }
}

/// The value of a hexadecimal digit of either case.
pub open spec fn hex_value(c: char) -> Option<u8> {
    if '0' <= c && c <= '9' {
        Some((c as u32 - '0' as u32) as u8)
    } else if 'a' <= c && c <= 'f' {
        Some((c as u32 - 'a' as u32 + 10) as u8)
    } else if 'A' <= c && c <= 'F' {
        Some((c as u32 - 'A' as u32 + 10) as u8)
    } else {
        None
    }
}

/// The byte written by the two hex digits `hi` and `lo`.
pub open spec fn hex_byte(hi: char, lo: char) -> Option<u8> {
    match (hex_value(hi), hex_value(lo)) {
        (Some(h), Some(l)) => Some((h * 16 + l) as u8),
        _ => None,
    }
}

/// What a single comma-separated token stands for.
pub enum TokenOutcome {
    /// Nothing is left once the token is trimmed and its `#` is stripped.
    Empty,
    Parsed(Color),
    Rejected(ColorFault),
}

/// The reading of one token: trimmed, stripped of one `#`, then six hex digits
/// read in pairs as red, green and blue.
pub open spec fn token_outcome(t: Seq<char>) -> TokenOutcome {
    let c = trim(t);
    let h = strip_hash(c);
    if h.len() == 0 {
        TokenOutcome::Empty
    } else if h.len() != 6 {
        TokenOutcome::Rejected(ColorFault::InvalidFormat)
    } else {
        match (hex_byte(h[0], h[1]), hex_byte(h[2], h[3]), hex_byte(h[4], h[5])) {
            (Some(r), Some(g), Some(b)) => TokenOutcome::Parsed(Color { r, g, b }),
            _ => TokenOutcome::Rejected(ColorFault::InvalidHexDigit(c)),
        }
    }
}

/// Colors of the tokens `toks` in order, empty tokens skipped; the first rejected
/// token decides the error.
pub open spec fn parse_tokens(toks: Seq<Seq<char>>) -> Result<Seq<Color>, ColorFault>
    decreases toks.len(),
{
    if toks.len() == 0 {
        Ok(Seq::empty())
    } else {
        match parse_tokens(toks.drop_last()) {
            Err(f) => Err(f),
            Ok(cs) => match token_outcome(toks.last()) {
                TokenOutcome::Empty => Ok(cs),
                TokenOutcome::Parsed(c) => Ok(cs.push(c)),
                TokenOutcome::Rejected(f) => Err(f),
            },
        }
    }
}

/// What the comma-separated color list `s` reads as.
pub open spec fn color_list(s: Seq<char>) -> Result<Seq<Color>, ColorFault> {
    parse_tokens(split_commas(s))
}

/// `r` is the executable form of `spec`.
pub open spec fn result_is(r: Result<Vec<Color>, ColorError>, spec: Result<Seq<Color>, ColorFault>) -> bool {
    match (r, spec) {
        (Ok(v), Ok(cs)) => v@ == cs,
        (Err(e), Err(f)) => e@ == f,
        _ => false,
    }
}

/// Whether `c` is whitespace.
pub fn is_space_char(c: char) -> (r: bool)
    ensures
        r == is_space(c),
{
    let u = c as u32;
    (0x9 <= u && u <= 0xd) || u == 0x20 || u == 0x85 || u == 0xa0 || u == 0x1680
        || (0x2000 <= u && u <= 0x200a) || u == 0x2028 || u == 0x2029 || u == 0x202f
        || u == 0x205f || u == 0x3000
}

/// The value of the hex digit `c`, if it is one.
pub fn hex_digit(c: char) -> (r: Option<u8>)
    ensures
        r == hex_value(c),
{
    if '0' <= c && c <= '9' {
        Some((c as u32 - '0' as u32) as u8)
    } else if 'a' <= c && c <= 'f' {
        Some((c as u32 - 'a' as u32 + 10) as u8)
    } else if 'A' <= c && c <= 'F' {
        Some((c as u32 - 'A' as u32 + 10) as u8)
    } else {
        None
    }
}

/// The byte written by the hex digits `hi` and `lo`, if both are digits.
pub fn hex_pair(hi: char, lo: char) -> (r: Option<u8>)
    ensures
        r == hex_byte(hi, lo),
{
    match (hex_digit(hi), hex_digit(lo)) {
        (Some(h), Some(l)) => Some(h * 16 + l),
        _ => None,
    }
}

/// Relies on `String::from_iter`: the string holds the given characters in order.
#[verifier::external_body]
fn string_of(cs: &[char]) -> (r: String)
    ensures
        r@ == cs@,
{
    String::from_iter(cs.iter())
}

/// The pieces of `cs` between commas.
pub fn split_commas_of(cs: &Vec<char>) -> (r: Vec<Vec<char>>)
    ensures
        r.len() == split_commas(cs@).len(),
        forall|i: int| 0 <= i < r.len() ==> #[trigger] r[i]@ == split_commas(cs@)[i],
{
    let mut done: Vec<Vec<char>> = Vec::new();
    let mut cur: Vec<char> = Vec::new();
    let mut k: usize = 0;
    while k < cs.len()
        invariant
            k <= cs.len(),
            split_commas(cs@.take(k as int)).len() == done.len() + 1,
            forall|i: int| 0 <= i < done.len() ==> #[trigger] done[i]@ == split_commas(cs@.take(k as int))[i],
            cur@ == split_commas(cs@.take(k as int)).last(),
        decreases cs.len() - k,
    {
        assert(cs@.take(k + 1).drop_last() == cs@.take(k as int));
        if cs[k] == ',' {
            done.push(cur);
            cur = Vec::new();
        } else {
            cur.push(cs[k]);
        }
        k = k + 1;
    }
    assert(cs@.take(k as int) == cs@);
    done.push(cur);
    done
}

/// Reads one token: `Ok(None)` for an empty one, `Ok(Some(c))` for a color.
pub fn read_token(t: &Vec<char>) -> (r: Result<Option<Color>, ColorError>)
    ensures
        match (r, token_outcome(t@)) {
            (Ok(None), TokenOutcome::Empty) => true,
            (Ok(Some(c)), TokenOutcome::Parsed(d)) => c == d,
            (Err(e), TokenOutcome::Rejected(f)) => e@ == f,
            _ => false,
        },
{
    let ghost s = t@;
    let mut hi: usize = t.len();
    assert(s.take(hi as int) == s);
    while hi > 0 && is_space_char(t[hi - 1])
        invariant
            s == t@,
            hi <= t.len(),
            trim_end(s) == trim_end(s.take(hi as int)),
        decreases hi,
    {
        assert(s.take(hi as int).drop_last() == s.take(hi - 1));
        hi = hi - 1;
    }
    assert(trim_end(s.take(hi as int)) == s.take(hi as int));
    let mut lo: usize = 0;
    while lo < hi && is_space_char(t[lo])
        invariant
            s == t@,
            lo <= hi <= t.len(),
            trim_start(s.take(hi as int)) == trim_start(s.subrange(lo as int, hi as int)),
        decreases hi - lo,
    {
        assert(s.subrange(lo as int, hi as int).drop_first() == s.subrange(lo + 1, hi as int));
        lo = lo + 1;
    }
    assert(trim_start(s.subrange(lo as int, hi as int)) == s.subrange(lo as int, hi as int));
    assert(trim(s) == s.subrange(lo as int, hi as int));
    let start: usize = if lo < hi && t[lo] == '#' { lo + 1 } else { lo };
    assert(strip_hash(trim(s)) == s.subrange(start as int, hi as int));
    if start == hi {
        return Ok(None);
    }
    if hi - start != 6 {
        return Err(ColorError::InvalidFormat);
    }
    let r = hex_pair(t[start], t[start + 1]);
    let g = hex_pair(t[start + 2], t[start + 3]);
    let b = hex_pair(t[start + 4], t[start + 5]);
    match (r, g, b) {
        (Some(r), Some(g), Some(b)) => Ok(Some(Color { r, g, b })),
        _ => {
            let token = string_of(&t.as_slice()[lo..hi]);
            Err(ColorError::InvalidHexDigit(token))
        },
    }
}

/// Parses a comma-separated list of `#RRGGBB` or `RRGGBB` colors. Tokens are
/// trimmed of whitespace; empty ones are skipped.
pub fn parse_colors(s: &str) -> (r: Result<Vec<Color>, ColorError>)
    ensures
        result_is(r, color_list(s@)),
{
    let cs = chars_of(s);
    let toks = split_commas_of(&cs);
    let ghost sp = split_commas(s@);
    let mut colors: Vec<Color> = Vec::new();
    let mut i: usize = 0;
    while i < toks.len()
        invariant
            i <= toks.len(),
            sp == split_commas(s@),
            toks.len() == sp.len(),
            forall|j: int| 0 <= j < toks.len() ==> #[trigger] toks[j]@ == sp[j],
            parse_tokens(sp.take(i as int)) == Ok::<Seq<Color>, ColorFault>(colors@),
        decreases toks.len() - i,
    {
        assert(sp.take(i + 1).drop_last() == sp.take(i as int));
        assert(sp.take(i + 1).last() == sp[i as int]);
        match read_token(&toks[i]) {
            Ok(None) => {},
            Ok(Some(c)) => colors.push(c),
            Err(e) => {
                assert(parse_tokens(sp.take(i + 1)) == Err::<Seq<Color>, ColorFault>(e@));
                proof { lemma_error_stays(sp, i as int + 1); }
                return Err(e);
            },
        }
        i = i + 1;
    }
    assert(sp.take(i as int) == sp);
    Ok(colors)
}

/// Once a prefix of the tokens is rejected, so is every longer prefix, with the
/// same error.
proof fn lemma_error_stays(toks: Seq<Seq<char>>, k: int)
    requires
        0 <= k <= toks.len(),
        parse_tokens(toks.take(k)) is Err,
    ensures
        parse_tokens(toks) == parse_tokens(toks.take(k)),
    decreases toks.len() - k,
{
    if k < toks.len() {
        assert(toks.take(k + 1).drop_last() == toks.take(k));
        lemma_error_stays(toks, k + 1);
    } else {
        assert(toks.take(k) == toks);
    }
}

/// A token that is empty once trimmed and stripped of its `#`, or six hex digits.
pub open spec fn well_formed_token(t: Seq<char>) -> bool {
    let h = strip_hash(trim(t));
    h.len() == 0 || (h.len() == 6 && forall|k: int| 0 <= k < 6 ==> (#[trigger] hex_value(h[k])) is Some)
}

/// A token that names a color rather than nothing.
pub open spec fn names_color(t: Seq<char>) -> bool {
    strip_hash(trim(t)).len() > 0
}

/// The color that a well-formed, non-empty token writes.
pub open spec fn token_color(t: Seq<char>) -> Color {
    let h = strip_hash(trim(t));
    Color {
        r: hex_byte(h[0], h[1])->0,
        g: hex_byte(h[2], h[3])->0,
        b: hex_byte(h[4], h[5])->0,
    }
}

proof fn lemma_tokens_well_formed(toks: Seq<Seq<char>>)
    requires
        forall|k: int| 0 <= k < toks.len() ==> well_formed_token(#[trigger] toks[k]),
    ensures
        parse_tokens(toks) == Ok::<Seq<Color>, ColorFault>(
            toks.filter(|t: Seq<char>| names_color(t)).map_values(|t: Seq<char>| token_color(t)),
        ),
    decreases toks.len(),
{
    reveal(Seq::filter);
    let f = |t: Seq<char>| names_color(t);
    let g = |t: Seq<char>| token_color(t);
    if toks.len() == 0 {
        assert(toks.filter(f).map_values(g) =~= Seq::<Color>::empty());
    } else {
        let init = toks.drop_last();
        assert forall|k: int| 0 <= k < init.len() implies well_formed_token(#[trigger] init[k]) by {
            assert(init[k] == toks[k]);
        }
        lemma_tokens_well_formed(init);
        assert(well_formed_token(toks[toks.len() - 1]));
        let h = strip_hash(trim(toks.last()));
        if h.len() == 6 {
            assert(hex_value(h[0]) is Some && hex_value(h[1]) is Some);
            assert(hex_value(h[2]) is Some && hex_value(h[3]) is Some);
            assert(hex_value(h[4]) is Some && hex_value(h[5]) is Some);
        }
        if names_color(toks.last()) {
            assert(toks.filter(f) == init.filter(f).push(toks.last()));
            assert(toks.filter(f).map_values(g) =~= init.filter(f).map_values(g).push(
                token_color(toks.last()),
            ));
        } else {
            assert(toks.filter(f) == init.filter(f));
        }
        assert(parse_tokens(toks) == Ok::<Seq<Color>, ColorFault>(toks.filter(f).map_values(g)));
    }
}

/// A list whose tokens are all well formed parses: one color per non-empty
/// token, in order, each read from that token's hex digits.
pub proof fn lemma_well_formed_list_parses(s: Seq<char>)
    requires
        forall|k: int|
            0 <= k < split_commas(s).len() ==> well_formed_token(#[trigger] split_commas(s)[k]),
    ensures
        color_list(s) == Ok::<Seq<Color>, ColorFault>(
            split_commas(s).filter(|t: Seq<char>| names_color(t)).map_values(
                |t: Seq<char>| token_color(t),
            ),
        ),
{
    lemma_tokens_well_formed(split_commas(s));
}

proof fn lemma_no_comma_one_token(s: Seq<char>)
    requires
        !s.contains(','),
    ensures
        split_commas(s) == seq![s],
    decreases s.len(),
{
    if s.len() > 0 {
        let init = s.drop_last();
        assert(!init.contains(',')) by {
            if init.contains(',') {
                let k = choose|k: int| 0 <= k < init.len() && init[k] == ',';
                assert(s[k] == ',');
            }
        }
        lemma_no_comma_one_token(init);
        assert(s.last() != ',') by {
            assert(s[s.len() - 1] == s.last());
        }
        assert(init.push(s.last()) == s);
        assert(split_commas(s) =~= seq![s]);
    } else {
        assert(s =~= Seq::<char>::empty());
    }
}

/// A single token that is neither empty nor six characters long, once trimmed
/// and stripped of its `#`, is rejected as badly formed.
pub proof fn lemma_wrong_length_rejected(s: Seq<char>)
    requires
        !s.contains(','),
        strip_hash(trim(s)).len() != 0,
        strip_hash(trim(s)).len() != 6,
    ensures
        color_list(s) == Err::<Seq<Color>, ColorFault>(ColorFault::InvalidFormat),
{
    lemma_no_comma_one_token(s);
    assert(seq![s].drop_last() =~= Seq::<Seq<char>>::empty());
    assert(parse_tokens(Seq::<Seq<char>>::empty()) == Ok::<Seq<Color>, ColorFault>(Seq::empty()));
    assert(seq![s].last() == s);
}

/// A single six-character token (once trimmed and stripped of its `#`) with a
/// character that is not a hex digit is rejected, and the error carries the
/// trimmed token.
pub proof fn lemma_bad_digit_rejected(s: Seq<char>, k: int)
    requires
        !s.contains(','),
        strip_hash(trim(s)).len() == 6,
        0 <= k < 6,
        hex_value(strip_hash(trim(s))[k]) is None,
    ensures
        color_list(s) == Err::<Seq<Color>, ColorFault>(ColorFault::InvalidHexDigit(trim(s))),
{
    lemma_no_comma_one_token(s);
    assert(seq![s].drop_last() =~= Seq::<Seq<char>>::empty());
    assert(parse_tokens(Seq::<Seq<char>>::empty()) == Ok::<Seq<Color>, ColorFault>(Seq::empty()));
    assert(seq![s].last() == s);
}

/// The characters of `s`, in order.
pub fn chars_of(s: &str) -> (r: Vec<char>)
    ensures
        r@ == s@,
{
    let mut r: Vec<char> = Vec::new();
    for c in it: s.chars()
        invariant
            r@ == it.seq().take(it.index() as int),
    {
        r.push(c);
    }
    r
}

} // verus!
