//! The music-string text format, read by recursive descent over a slice of characters.
//!
//! Every function reads from the start of the slice it is given and, on success, returns
//! the value read and how many characters it used.
use crate::cfg::{
    string_wf, Grammar, MetaControl, MusicPrimitive, MusicString, MusicTransform, NonTerminal,
    Production, Symbol, Terminal, TerminalNote,
};
use crate::composition::{Instrument, Pitch, Volume};
use crate::frac::{frac_of, Frac};
use crate::grammar::{view_prim, view_prims, view_branches, PrimView};
use crate::time::{beats, MusicTime};
use vstd::prelude::*;
use vstd::slice::slice_subrange;

verus! {

#[derive(Debug)]
pub enum ScanError {
    Generic(String),
    ExpectedEither(String, String),
    UnbalancedBracket(char),
    TrailingInput,
    MissingStart,
}

/// Relies on `String`'s `FromIterator<char>`: the string holds exactly the given characters.
#[verifier::external_body]
fn string_of(cs: &[char]) -> (r: String)
    ensures
        r@ == cs@,
{
    cs.iter().collect()
}

pub fn chars_of(s: &str) -> (r: Vec<char>)
    ensures
        r@ == s@,
{
    let n = s.unicode_len();
    let mut out: Vec<char> = Vec::new();
    let mut i: usize = 0;
    while i < n
        invariant
            n == s@.len(),
            i <= n,
            out@ == s@.subrange(0, i as int),
        decreases n - i,
    {
        out.push(s.get_char(i));
        i += 1;
        assert(out@ =~= s@.subrange(0, i as int));
    }
    assert(s@.subrange(0, n as int) =~= s@);
    out
}

fn generic(msg: &str) -> (r: ScanError)
    ensures
        r is Generic,
{
    ScanError::Generic(msg.to_owned())
}

pub open spec fn is_ws(c: char) -> bool {
    c == ' ' || c == '\t' || c == '\n' || c == '\r'
}

pub open spec fn is_digit(c: char) -> bool {
    '0' <= c && c <= '9'
}

pub open spec fn is_letter(c: char) -> bool {
    ('a' <= c && c <= 'z') || ('A' <= c && c <= 'Z')
}

/// The characters a non-terminal's name is made of.
pub open spec fn is_name_char(c: char) -> bool {
    is_letter(c) || is_digit(c) || c == '-' || c == '/' || c == '#' || c == '?'
}

fn ws(c: char) -> (r: bool)
    ensures
        r == is_ws(c),
{
    c == ' ' || c == '\t' || c == '\n' || c == '\r'
}

fn digit(c: char) -> (r: bool)
    ensures
        r == is_digit(c),
{
    '0' <= c && c <= '9'
}

fn letter(c: char) -> (r: bool)
    ensures
        r == is_letter(c),
{
    ('a' <= c && c <= 'z') || ('A' <= c && c <= 'Z')
}

fn name_char(c: char) -> (r: bool)
    ensures
        r == is_name_char(c),
{
    letter(c) || digit(c) || c == '-' || c == '/' || c == '#' || c == '?'
}

pub open spec fn digit_value(c: char) -> int {
    c as int - '0' as int
}

/// The number that a run of decimal digits spells.
pub open spec fn digits_value(s: Seq<char>) -> int
    decreases s.len(),
{
    if s.len() == 0 {
        0
    } else {
        digits_value(s.drop_last()) * 10 + digit_value(s.last())
    }
}

/// The index of the first character from `i` on that is not white space.
pub open spec fn ws_end(s: Seq<char>, i: int) -> int
    decreases s.len() - i,
{
    if 0 <= i < s.len() && is_ws(s[i]) {
        ws_end(s, i + 1)
    } else {
        i
    }
}

/// The end of the run of name characters that starts at `i`.
pub open spec fn name_end(s: Seq<char>, i: int) -> int
    decreases s.len() - i,
{
    if 0 <= i < s.len() && is_name_char(s[i]) {
        name_end(s, i + 1)
    } else {
        i
    }
}

/// The end of the run of letters, digits and `_` that starts at `i`.
pub open spec fn word_end(s: Seq<char>, i: int) -> int
    decreases s.len() - i,
{
    if 0 <= i < s.len() && (is_letter(s[i]) || is_digit(s[i]) || s[i] == '_') {
        word_end(s, i + 1)
    } else {
        i
    }
}

/// The end of the run of digits that starts at `i`.
pub open spec fn digit_end(s: Seq<char>, i: int) -> int
    decreases s.len() - i,
{
    if 0 <= i < s.len() && is_digit(s[i]) {
        digit_end(s, i + 1)
    } else {
        i
    }
}

fn skip_ws(s: &[char], i: usize) -> (r: usize)
    requires
        i <= s@.len(),
    ensures
        r == ws_end(s@, i as int),
        i <= r <= s@.len(),
        forall|j: int| i <= j < r ==> is_ws(#[trigger] s@[j]),
        r < s@.len() ==> !is_ws(s@[r as int]),
{
    let mut k = i;
    while k < s.len() && ws(s[k])
        invariant
            i <= k <= s@.len(),
            ws_end(s@, i as int) == ws_end(s@, k as int),
            forall|j: int| i <= j < k ==> is_ws(#[trigger] s@[j]),
        decreases s@.len() - k,
    {
        k += 1;
    }
    k
}

/// Reads the decimal digits at the start of `s`: their value and how many there are.
/// Fails when there is no digit or the value does not fit.
pub fn parse_uint(s: &[char]) -> (r: Option<(u64, usize)>)
    ensures
        r is Some ==> {
            let (v, n) = r.unwrap();
            &&& 0 < n <= s@.len()
            &&& forall|j: int| 0 <= j < n ==> is_digit(#[trigger] s@[j])
            &&& (n < s@.len() ==> !is_digit(s@[n as int]))
            &&& v == digits_value(s@.subrange(0, n as int))
        },
        r is None ==> s@.len() == 0 || !is_digit(s@[0]) || exists|n: int|
            0 < n <= s@.len() && (forall|j: int| 0 <= j < n ==> is_digit(#[trigger] s@[j]))
                && digits_value(s@.subrange(0, n)) > u64::MAX,
{
    let mut v: u64 = 0;
    let mut k: usize = 0;
    assert(s@.subrange(0, 0) =~= Seq::<char>::empty());
    while k < s.len() && digit(s[k])
        invariant
            k <= s@.len(),
            forall|j: int| 0 <= j < k ==> is_digit(#[trigger] s@[j]),
            v == digits_value(s@.subrange(0, k as int)),
        decreases s@.len() - k,
    {
        let d = (s[k] as u32 - '0' as u32) as u64;
        assert(s@.subrange(0, k + 1).drop_last() =~= s@.subrange(0, k as int));
        if v > (u64::MAX - d) / 10 {
            assert(digits_value(s@.subrange(0, k + 1)) > u64::MAX);
            return None;
        }
        v = v * 10 + d;
        k += 1;
    }
    if k == 0 {
        None
    } else {
        Some((v, k))
    }
}

pub open spec fn all_digits(s: Seq<char>) -> bool {
    forall|j: int| 0 <= j < s.len() ==> is_digit(#[trigger] s[j])
}

/// The value of `s` when it is a non-empty run of digits whose value fits in `u64`.
pub open spec fn uint_text(s: Seq<char>) -> Option<int> {
    if s.len() > 0 && all_digits(s) && digits_value(s) <= u64::MAX {
        Some(digits_value(s))
    } else {
        None
    }
}

/// The value of `s` when it is a run of digits, with an optional `-` before it, whose value
/// fits in `i64` (the most negative value excepted).
pub open spec fn int_text(s: Seq<char>) -> Option<int> {
    if s.len() > 0 && s[0] == '-' {
        match uint_text(s.drop_first()) {
            Some(v) => if v <= i64::MAX {
                Some(-v)
            } else {
                None
            },
            None => None,
        }
    } else {
        match uint_text(s) {
            Some(v) => if v <= i64::MAX {
                Some(v)
            } else {
                None
            },
            None => None,
        }
    }
}

proof fn lemma_digits_monotone(s: Seq<char>, k: int)
    requires
        all_digits(s),
        0 <= k <= s.len(),
    ensures
        0 <= digits_value(s.subrange(0, k)) <= digits_value(s),
    decreases s.len(),
{
    if k < s.len() {
        let t = s.drop_last();
        assert(all_digits(t)) by {
            assert forall|j: int| 0 <= j < t.len() implies is_digit(#[trigger] t[j]) by {
                assert(t[j] == s[j]);
            }
        }
        lemma_digits_monotone(t, k);
        assert(t.subrange(0, k) =~= s.subrange(0, k));
        assert(is_digit(s[s.len() - 1]));
    } else {
        assert(s.subrange(0, k) =~= s);
        lemma_digits_nonneg(s);
    }
}

proof fn lemma_digits_nonneg(s: Seq<char>)
    requires
        all_digits(s),
    ensures
        digits_value(s) >= 0,
    decreases s.len(),
{
    if s.len() > 0 {
        let t = s.drop_last();
        assert(all_digits(t)) by {
            assert forall|j: int| 0 <= j < t.len() implies is_digit(#[trigger] t[j]) by {
                assert(t[j] == s[j]);
            }
        }
        lemma_digits_nonneg(t);
        assert(is_digit(s[s.len() - 1]));
    }
}

/// Reads the whole of `s` as an unsigned decimal number.
pub fn uint_all(s: &[char]) -> (r: Option<u64>)
    ensures
        r is Some <==> uint_text(s@) is Some,
        r is Some ==> r.unwrap() == uint_text(s@).unwrap(),
{
    match parse_uint(s) {
        Some((v, k)) => {
            if k == s.len() {
                assert(s@.subrange(0, k as int) =~= s@);
                Some(v)
            } else {
                assert(!all_digits(s@));
                None
            }
        },
        None => {
            proof {
                if s@.len() > 0 && is_digit(s@[0]) && all_digits(s@) {
                    let n = choose|n: int|
                        0 < n <= s@.len() && (forall|j: int| 0 <= j < n ==> is_digit(#[trigger] s@[j]))
                            && digits_value(s@.subrange(0, n)) > u64::MAX;
                    lemma_digits_monotone(s@, n);
                }
            }
            None
        },
    }
}

/// Reads the whole of `s` as a decimal number with an optional `-`.
pub fn int_all(s: &[char]) -> (r: Option<i64>)
    ensures
        r is Some <==> int_text(s@) is Some,
        r is Some ==> r.unwrap() == int_text(s@).unwrap() && r.unwrap() > i64::MIN,
{
    if s.len() > 0 && s[0] == '-' {
        let rest = slice_subrange(s, 1, s.len());
        assert(rest@ =~= s@.drop_first());
        match uint_all(rest) {
            Some(v) => if v > i64::MAX as u64 {
                None
            } else {
                Some(-(v as i64))
            },
            None => None,
        }
    } else {
        match uint_all(s) {
            Some(v) => if v > i64::MAX as u64 {
                None
            } else {
                Some(v as i64)
            },
            None => None,
        }
    }
}

/// The index of the first `c` in `s`, if any.
pub open spec fn first_index(s: Seq<char>, c: char) -> Option<int> {
    if exists|i: int| 0 <= i < s.len() && s[i] == c {
        Some(choose|i: int| 0 <= i < s.len() && s[i] == c && forall|j: int| 0 <= j < i ==> s[j] != c)
    } else {
        None
    }
}

fn find_char(s: &[char], c: char) -> (r: Option<usize>)
    ensures
        r is Some ==> first_index(s@, c) == Some(r.unwrap() as int) && r.unwrap() < s@.len()
            && s@[r.unwrap() as int] == c && forall|j: int| 0 <= j < r.unwrap() ==> s@[j] != c,
        r is None ==> first_index(s@, c) is None,
{
    let mut i: usize = 0;
    while i < s.len()
        invariant
            i <= s@.len(),
            forall|j: int| 0 <= j < i ==> s@[j] != c,
        decreases s@.len() - i,
    {
        if s[i] == c {
            proof {
                let w = choose|w: int| 0 <= w < s@.len() && s@[w] == c && forall|j: int| 0 <= j < w ==> s@[j] != c;
                assert(0 <= i < s@.len() && s@[i as int] == c && forall|j: int| 0 <= j < i ==> s@[j] != c);
                if w < i {
                } else if w > i {
                    assert(s@[i as int] != c);
                }
            }
            return Some(i);
        }
        i += 1;
    }
    None
}

/// A fraction text `n` or `n/d` with `d` not zero: the fraction in lowest terms with a
/// positive denominator.
#[verifier::opaque]
pub open spec fn spec_fraction(s: Seq<char>) -> Option<Frac> {
    match first_index(s, '/') {
        None => match int_text(s) {
            Some(n) => Some(Frac { num: n as i64, den: 1 }),
            None => None,
        },
        Some(p) => match (int_text(s.subrange(0, p)), int_text(s.subrange(p + 1, s.len() as int))) {
            (Some(n), Some(d)) => if d == 0 {
                None
            } else if d < 0 {
                frac_of(-n, -d)
            } else {
                frac_of(n, d)
            },
            _ => None,
        },
    }
}

/// How many `open`s minus how many `close`s there are in `s[..k]`.
pub open spec fn balance(s: Seq<char>, k: int, open: char, close: char) -> int
    decreases k,
{
    if k <= 0 {
        0
    } else {
        balance(s, k - 1, open, close) + if s[k - 1] == open {
            1int
        } else if s[k - 1] == close {
            -1int
        } else {
            0int
        }
    }
}

/// With one `open` already read, finds the `close` that matches it: the first index at
/// which the `close`s seen outnumber the `open`s.
pub fn find_matching(s: &[char], open: char, close: char) -> (r: Option<usize>)
    requires
        open != close,
    ensures
        r is Some ==> {
            let i = r.unwrap() as int;
            &&& 0 <= i < s@.len()
            &&& s@[i] == close
            &&& balance(s@, i + 1, open, close) == -1
            &&& forall|j: int| 0 <= j <= i ==> balance(s@, j, open, close) >= 0
        },
        r is None ==> forall|j: int| 0 <= j <= s@.len() ==> balance(s@, j, open, close) >= 0,
{
    let mut depth: usize = 0;
    let mut i: usize = 0;
    while i < s.len()
        invariant
            i <= s@.len(),
            depth == balance(s@, i as int, open, close),
            0 <= depth <= i,
            forall|j: int| 0 <= j <= i ==> balance(s@, j, open, close) >= 0,
        decreases s@.len() - i,
    {
        if s[i] == open {
            depth += 1;
        } else if s[i] == close {
            if depth == 0 {
                return Some(i);
            }
            depth -= 1;
        }
        i += 1;
    }
    None
}

/// The index of the `close` that matches an `open` read just before `s`.
#[verifier::opaque]
pub open spec fn spec_matching(s: Seq<char>, open: char, close: char) -> Option<int> {
    if exists|i: int|
        0 <= i < s.len() && s[i] == close && balance(s, i + 1, open, close) == -1 && forall|j: int|
            0 <= j <= i ==> balance(s, j, open, close) >= 0 {
        Some(
            choose|i: int|
                0 <= i < s.len() && s[i] == close && balance(s, i + 1, open, close) == -1
                    && forall|j: int| 0 <= j <= i ==> balance(s, j, open, close) >= 0,
        )
    } else {
        None
    }
}

fn matching(s: &[char], open: char, close: char) -> (r: Option<usize>)
    requires
        open != close,
    ensures
        r is Some ==> spec_matching(s@, open, close) == Some(r.unwrap() as int) && r.unwrap()
            < s@.len(),
        r is None ==> spec_matching(s@, open, close) is None,
{
    proof {
        reveal(spec_matching);
    }
    let r = find_matching(s, open, close);
    proof {
        let P = |i: int|
            0 <= i < s@.len() && s@[i] == close && balance(s@, i + 1, open, close) == -1
                && forall|j: int| 0 <= j <= i ==> balance(s@, j, open, close) >= 0;
        match r {
            Some(i) => {
                assert(P(i as int));
                let w = choose|w: int|
                    0 <= w < s@.len() && s@[w] == close && balance(s@, w + 1, open, close) == -1
                        && forall|j: int| 0 <= j <= w ==> balance(s@, j, open, close) >= 0;
                if w < i {
                    assert(balance(s@, w + 1, open, close) >= 0);
                } else if w > i {
                    assert(balance(s@, i + 1, open, close) >= 0);
                }
            },
            None => {
                if exists|i: int| #[trigger] P(i) {
                    let i = choose|i: int| #[trigger] P(i);
                    assert(balance(s@, i + 1, open, close) >= 0);
                }
            },
        }
    }
    r
}

/// The semitone offset of a note letter, counted from `a`.
pub open spec fn letter_semitone(c: char) -> int {
    if c == 'a' || c == 'A' {
        0
    } else if c == 'b' || c == 'B' {
        2
    } else if c == 'c' || c == 'C' {
        3
    } else if c == 'd' || c == 'D' {
        5
    } else if c == 'e' || c == 'E' {
        7
    } else if c == 'f' || c == 'F' {
        8
    } else if c == 'g' || c == 'G' {
        10
    } else {
        -1
    }
}

fn semitone_of(c: char) -> (r: Option<u8>)
    ensures
        letter_semitone(c) >= 0 ==> r == Some(letter_semitone(c) as u8),
        letter_semitone(c) < 0 ==> r is None,
{
    if c == 'a' || c == 'A' {
        Some(0)
    } else if c == 'b' || c == 'B' {
        Some(2)
    } else if c == 'c' || c == 'C' {
        Some(3)
    } else if c == 'd' || c == 'D' {
        Some(5)
    } else if c == 'e' || c == 'E' {
        Some(7)
    } else if c == 'f' || c == 'F' {
        Some(8)
    } else if c == 'g' || c == 'G' {
        Some(10)
    } else {
        None
    }
}

/// What a note at the start of `s` reads as: `_` is a rest; otherwise an optional octave
/// digit (4 when absent), a letter `a`..`g` in either case, and an optional `#` (one
/// semitone up) or `b` (one down, within the octave).
#[verifier::opaque]
pub open spec fn spec_note(s: Seq<char>) -> Option<(TerminalNote, int)> {
    if s.len() == 0 {
        None
    } else if s[0] == '_' {
        Some((TerminalNote::Rest, 1))
    } else {
        let has_octave = is_digit(s[0]);
        let octave = if has_octave { digit_value(s[0]) } else { 4 };
        let at = if has_octave { 1int } else { 0int };
        if at >= s.len() || letter_semitone(s[at]) < 0 {
            None
        } else {
            let base = letter_semitone(s[at]);
            let (semi, len) = if at + 1 < s.len() && s[at + 1] == '#' {
                (base + 1, at + 2)
            } else if at + 1 < s.len() && s[at + 1] == 'b' {
                ((base + 11) % 12, at + 2)
            } else {
                (base, at + 1)
            };
            Some((TerminalNote::Note { pitch: Pitch(octave as i32, semi as u8) }, len))
        }
    }
}

pub fn scan_note(s: &[char]) -> (r: Result<(TerminalNote, usize), ScanError>)
    ensures
        r is Ok <==> spec_note(s@) is Some,
        r is Ok ==> spec_note(s@) == Some((r->Ok_0.0, r->Ok_0.1 as int)),
        r is Ok ==> 0 < r->Ok_0.1 <= s@.len(),
{
    proof {
        reveal(spec_note);
    }
    if s.len() == 0 {
        return Err(generic("expected a note"));
    }
    if s[0] == '_' {
        return Ok((TerminalNote::Rest, 1));
    }
    let has_octave = digit(s[0]);
    let octave: i32 = if has_octave {
        (s[0] as u32 - '0' as u32) as i32
    } else {
        4
    };
    let at: usize = if has_octave {
        1
    } else {
        0
    };
    if at >= s.len() {
        return Err(generic("expected a note letter after the octave"));
    }
    let base = match semitone_of(s[at]) {
        Some(b) => b,
        None => {
            return Err(generic("expected a note letter a to g"));
        },
    };
    let (semi, len): (u8, usize) = if at + 1 < s.len() && s[at + 1] == '#' {
        (base + 1, at + 2)
    } else if at + 1 < s.len() && s[at + 1] == 'b' {
        ((base + 11) % 12, at + 2)
    } else {
        (base, at + 1)
    };
    Ok((TerminalNote::Note { pitch: Pitch(octave, semi) }, len))
}

/// What an optional duration at the start of `s` reads as, and how many characters it
/// takes: `<n>` is `n` quarter notes, `<n/d>` is `n/d` of a whole note (`d` not zero);
/// without a `<` a note lasts one quarter and nothing is read.
#[verifier::opaque]
pub open spec fn spec_duration(s: Seq<char>) -> Option<(Frac, int)> {
    if s.len() == 0 || s[0] != '<' {
        Some((frac_of(1, 4).unwrap(), 0))
    } else {
        let rest = s.drop_first();
        match spec_matching(rest, '<', '>') {
            None => None,
            Some(end) => {
                let inner = rest.subrange(0, end);
                match first_index(inner, '/') {
                    None => match uint_text(inner) {
                        Some(n) => if n <= u32::MAX {
                            Some((frac_of(n, 4).unwrap(), end + 2))
                        } else {
                            None
                        },
                        None => None,
                    },
                    Some(p) => match (
                        uint_text(inner.subrange(0, p)),
                        uint_text(inner.subrange(p + 1, inner.len() as int)),
                    ) {
                        (Some(n), Some(d)) => if d == 0 || n > i64::MAX || d > i64::MAX {
                            None
                        } else {
                            Some((frac_of(n, d).unwrap(), end + 2))
                        },
                        _ => None,
                    },
                }
            },
        }
    }
}

/// Reads an optional duration.
pub fn scan_duration(s: &[char]) -> (r: Result<(MusicTime, usize), ScanError>)
    ensures
        r is Ok <==> spec_duration(s@) is Some,
        (s@.len() > 0 && s@[0] == '<' && spec_matching(s@.drop_first(), '<', '>') is None) ==> r
            is Err && r->Err_0 == ScanError::UnbalancedBracket('<'),
        r is Ok ==> spec_duration(s@) == Some((r->Ok_0.0, r->Ok_0.1 as int)) && r->Ok_0.0.wf()
            && r->Ok_0.1 <= s@.len(),
{
    proof {
        reveal(spec_duration);
    }
    if s.len() == 0 || s[0] != '<' {
        return Ok((beats(1), 0));
    }
    let len = s.len();
    let rest = slice_subrange(s, 1, len);
    assert(rest@ =~= s@.drop_first());
    let end = match matching(rest, '<', '>') {
        Some(e) => e,
        None => {
            return Err(ScanError::UnbalancedBracket('<'));
        },
    };
    let inner = slice_subrange(rest, 0, end);
    let used = end + 2;
    match find_char(inner, '/') {
        None => match uint_all(inner) {
            Some(n) => {
                if n > u32::MAX as u64 {
                    Err(generic("duration too long"))
                } else {
                    Ok((beats(n as u32), used))
                }
            },
            None => Err(generic("malformed duration")),
        },
        Some(p) => {
            let ilen = inner.len();
            let top = slice_subrange(inner, 0, p);
            let bottom = slice_subrange(inner, p + 1, ilen);
            match (uint_all(top), uint_all(bottom)) {
                (Some(n), Some(d)) => {
                    if d == 0 || n > i64::MAX as u64 || d > i64::MAX as u64 {
                        Err(generic("malformed duration"))
                    } else {
                        Ok((Frac::new(n as i64, d as i64), used))
                    }
                },
                _ => Err(generic("malformed duration")),
            }
        },
    }
}

/// Reads a fraction `n` or `n/d` that fills the whole of `s`; `d` must not be zero.
pub fn scan_fraction(s: &[char]) -> (r: Result<Frac, ScanError>)
    ensures
        r is Ok <==> spec_fraction(s@) is Some,
        r is Ok ==> r->Ok_0 == spec_fraction(s@).unwrap() && r->Ok_0.wf(),
{
    proof {
        reveal(spec_fraction);
    }
    match find_char(s, '/') {
        None => match int_all(s) {
            Some(n) => Ok(Frac::whole(n)),
            None => Err(generic("expected a fraction num/denom")),
        },
        Some(p) => {
            let len = s.len();
            let top = slice_subrange(s, 0, p);
            let bottom = slice_subrange(s, p + 1, len);
            assert(top@ == s@.subrange(0, p as int));
            match (int_all(top), int_all(bottom)) {
                (Some(n), Some(d)) => {
                    if d == 0 {
                        Err(generic("denominator cannot be zero"))
                    } else if d < 0 {
                        Ok(Frac::new(-n, -d))
                    } else {
                        Ok(Frac::new(n, d))
                    }
                },
                _ => Err(generic("expected a fraction num/denom")),
            }
        },
    }
}

/// What a transform text means: `x` and a positive count repeats, `T` and a signed number
/// transposes by that many semitones, `>>` and a positive fraction speeds up by it (the
/// time factor is its reciprocal).
#[verifier::opaque]
pub open spec fn spec_transform(s: Seq<char>) -> Option<MusicTransform> {
    if s.len() > 0 && s[0] == 'x' {
        match uint_text(s.drop_first()) {
            Some(n) => if 0 < n <= usize::MAX {
                Some(MusicTransform::Repeat { num: n as usize })
            } else {
                None
            },
            None => None,
        }
    } else if s.len() > 0 && s[0] == 'T' {
        match int_text(s.drop_first()) {
            Some(k) => Some(MusicTransform::Transpose { semitones: k as i64 }),
            None => None,
        }
    } else if s.len() >= 2 && s[0] == '>' && s[1] == '>' {
        match spec_fraction(s.subrange(2, s.len() as int)) {
            Some(f) => if f.num > 0 {
                match frac_of(f.den as int, f.num as int) {
                    Some(g) => Some(MusicTransform::Compression { factor: g }),
                    None => None,
                }
            } else {
                None
            },
            None => None,
        }
    } else {
        None
    }
}

/// Reads a transform that fills the whole of `s`.
pub fn scan_transform(s: &[char]) -> (r: Result<MusicTransform, ScanError>)
    ensures
        r is Ok <==> spec_transform(s@) is Some,
        r is Ok ==> r->Ok_0 == spec_transform(s@).unwrap() && crate::cfg::transform_wf(r->Ok_0),
{
    proof {
        reveal(spec_transform);
    }
    if s.len() > 0 && s[0] == 'x' {
        let rest = slice_subrange(s, 1, s.len());
        assert(rest@ =~= s@.drop_first());
        match uint_all(rest) {
            Some(n) => {
                if n == 0 || n > usize::MAX as u64 {
                    Err(generic("expected a positive count after 'x'"))
                } else {
                    Ok(MusicTransform::Repeat { num: n as usize })
                }
            },
            None => Err(generic("expected a positive count after 'x'")),
        }
    } else if s.len() > 0 && s[0] == 'T' {
        let rest = slice_subrange(s, 1, s.len());
        assert(rest@ =~= s@.drop_first());
        match int_all(rest) {
            Some(n) => Ok(MusicTransform::Transpose { semitones: n }),
            None => Err(generic("expected an integer after 'T'")),
        }
    } else if s.len() >= 2 && s[0] == '>' && s[1] == '>' {
        match scan_fraction(slice_subrange(s, 2, s.len())) {
            Ok(f) => {
                if f.num <= 0 {
                    Err(generic("expected a positive fraction after '>>'"))
                } else {
                    Ok(MusicTransform::Compression { factor: Frac::new(f.den, f.num) })
                }
            },
            Err(_) => Err(generic("expected a fraction after '>>'")),
        }
    } else {
        Err(generic("expected a transform"))
    }
}

/// `run` spells `name` (given in lower case), ignoring the case of ASCII letters.
pub open spec fn names_match(run: Seq<char>, name: Seq<char>) -> bool {
    run.len() == name.len() && forall|i: int|
        0 <= i < run.len() ==> run[i] == name[i] || ('A' <= #[trigger] run[i] && run[i] <= 'Z'
            && run[i] as int + 32 == name[i] as int)
}

fn same_name(run: &[char], name: &str) -> (r: bool)
    ensures
        r == names_match(run@, name@),
{
    let n = name.unicode_len();
    if n != run.len() {
        return false;
    }
    let mut i: usize = 0;
    while i < n
        invariant
            n == name@.len(),
            n == run@.len(),
            i <= n,
            forall|j: int|
                0 <= j < i ==> run@[j] == name@[j] || ('A' <= #[trigger] run@[j] && run@[j] <= 'Z'
                    && run@[j] as int + 32 == name@[j] as int),
        decreases n - i,
    {
        let c = run[i];
        let m = name.get_char(i);
        if c != m && !('A' <= c && c <= 'Z' && (c as u32) + 32 == m as u32) {
            return false;
        }
        i += 1;
    }
    true
}

/// The instrument that a name denotes, ignoring case.
pub open spec fn spec_instrument_named(run: Seq<char>) -> Option<Instrument> {
    if names_match(run, "sine"@) || names_match(run, "sinewave"@) || names_match(
        run,
        "sine_wave"@,
    ) {
        Some(Instrument::SineWave)
    } else if names_match(run, "piano"@) {
        Some(Instrument::Piano)
    } else if names_match(run, "guitar"@) {
        Some(Instrument::Guitar)
    } else if names_match(run, "bass"@) {
        Some(Instrument::Bass)
    } else if names_match(run, "drums"@) {
        Some(Instrument::Drums)
    } else if names_match(run, "violin"@) {
        Some(Instrument::Violin)
    } else if names_match(run, "flute"@) {
        Some(Instrument::Flute)
    } else if names_match(run, "organ"@) {
        Some(Instrument::Organ)
    } else {
        None
    }
}

pub fn instrument_named(run: &[char]) -> (r: Option<Instrument>)
    ensures
        r == spec_instrument_named(run@),
{
    if same_name(run, "sine") || same_name(run, "sinewave") || same_name(run, "sine_wave") {
        Some(Instrument::SineWave)
    } else if same_name(run, "piano") {
        Some(Instrument::Piano)
    } else if same_name(run, "guitar") {
        Some(Instrument::Guitar)
    } else if same_name(run, "bass") {
        Some(Instrument::Bass)
    } else if same_name(run, "drums") {
        Some(Instrument::Drums)
    } else if same_name(run, "violin") {
        Some(Instrument::Violin)
    } else if same_name(run, "flute") {
        Some(Instrument::Flute)
    } else if same_name(run, "organ") {
        Some(Instrument::Organ)
    } else {
        None
    }
}

pub open spec fn is_word_char(c: char) -> bool {
    is_letter(c) || is_digit(c) || c == '_'
}

/// `s[..k]` is a whole word: a letter, then letters, digits and `_`, up to the first other
/// character.
pub open spec fn word_at_start(s: Seq<char>, k: int) -> bool {
    &&& 0 < k <= s.len()
    &&& is_letter(s[0])
    &&& forall|j: int| 0 < j < k ==> is_word_char(#[trigger] s[j])
    &&& (k < s.len() ==> !is_word_char(s[k]))
}

/// Reads an instrument name: a letter, then letters, digits and `_`.
pub fn scan_instrument(s: &[char]) -> (r: Result<(Instrument, usize), ScanError>)
    ensures
        r is Ok ==> word_at_start(s@, r->Ok_0.1 as int) && spec_instrument_named(
            s@.subrange(0, r->Ok_0.1 as int),
        ) == Some(r->Ok_0.0),
        r is Err ==> forall|k: int|
            word_at_start(s@, k) ==> spec_instrument_named(#[trigger] s@.subrange(0, k)) is None,
        r is Ok <==> spec_instrument(s@) is Some,
        r is Ok ==> spec_instrument(s@) == Some((r->Ok_0.0, r->Ok_0.1 as int)),
{
    if s.len() == 0 || !letter(s[0]) {
        return Err(generic("expected an instrument"));
    }
    let mut k: usize = 1;
    while k < s.len() && (letter(s[k]) || digit(s[k]) || s[k] == '_')
        invariant
            1 <= k <= s@.len(),
            word_end(s@, 1) == word_end(s@, k as int),
            forall|j: int| 0 < j < k ==> is_word_char(#[trigger] s@[j]),
        decreases s@.len() - k,
    {
        k += 1;
    }
    proof {
        assert forall|m: int| word_at_start(s@, m) implies m == k by {
            if m < k {
                assert(is_word_char(s@[m]));
            } else if m > k {
                assert(is_word_char(s@[k as int]));
            }
        }
    }
    match instrument_named(slice_subrange(s, 0, k)) {
        Some(i) => Ok((i, k)),
        None => Err(generic("unknown instrument")),
    }
}

proof fn lemma_digit_end(s: Seq<char>, i: int, k: int)
    requires
        0 <= i <= k <= s.len(),
        forall|j: int| i <= j < k ==> is_digit(#[trigger] s[j]),
        k < s.len() ==> !is_digit(s[k]),
    ensures
        digit_end(s, i) == k,
    decreases k - i,
{
    if i < k {
        lemma_digit_end(s, i + 1, k);
    }
}

proof fn lemma_digit_end_at_least(s: Seq<char>, i: int, n: int)
    requires
        0 <= i <= n <= s.len(),
        forall|j: int| i <= j < n ==> is_digit(#[trigger] s[j]),
    ensures
        digit_end(s, i) >= n,
    decreases n - i,
{
    if i < n {
        lemma_digit_end_at_least(s, i + 1, n);
    } else {
        lemma_digit_end_digits(s, i);
    }
}

proof fn lemma_digit_end_digits(s: Seq<char>, i: int)
    requires
        0 <= i <= s.len(),
    ensures
        i <= digit_end(s, i) <= s.len(),
        forall|j: int| i <= j < digit_end(s, i) ==> is_digit(#[trigger] s[j]),
    decreases s.len() - i,
{
    if i < s.len() && is_digit(s[i]) {
        lemma_digit_end_digits(s, i + 1);
    }
}

/// Reads a volume: decimal digits spelling at most 100.
pub fn scan_volume(s: &[char]) -> (r: Result<(Volume, usize), ScanError>)
    ensures
        r is Ok ==> r->Ok_0.0.wf() && 0 < r->Ok_0.1 <= s@.len() && r->Ok_0.0.0
            == digits_value(s@.subrange(0, r->Ok_0.1 as int)) && (forall|j: int|
            0 <= j < r->Ok_0.1 ==> is_digit(#[trigger] s@[j])) && (r->Ok_0.1 < s@.len()
            ==> !is_digit(s@[r->Ok_0.1 as int])),
        (s@.len() == 0 || !is_digit(s@[0])) ==> r is Err,
        r is Ok <==> spec_volume(s@) is Some,
        r is Ok ==> spec_volume(s@) == Some((r->Ok_0.0, r->Ok_0.1 as int)),
{
    let found = parse_uint(s);
    proof {
        match found {
            Some((v, k)) => {
                lemma_digit_end(s@, 0, k as int);
            },
            None => {
                if s@.len() > 0 && is_digit(s@[0]) {
                    let n = choose|n: int|
                        0 < n <= s@.len() && (forall|j: int| 0 <= j < n ==> is_digit(#[trigger] s@[j]))
                            && digits_value(s@.subrange(0, n)) > u64::MAX;
                    lemma_digit_end_at_least(s@, 0, n);
                    let e = digit_end(s@, 0);
                    let t = s@.subrange(0, e);
                    lemma_digit_end_digits(s@, 0);
                    assert(all_digits(t));
                    lemma_digits_monotone(t, n);
                    assert(t.subrange(0, n) =~= s@.subrange(0, n));
                } else {
                    assert(digit_end(s@, 0) == 0);
                }
            },
        }
    }
    match found {
        Some((v, k)) => {
            if v > 100 {
                Err(generic("volume above 100"))
            } else {
                Ok((Volume(v as u8), k))
            }
        },
        None => Err(generic("expected a volume")),
    }
}

/// Reads `i=` and an instrument, or `v=` and a volume.
pub fn scan_meta(s: &[char]) -> (r: Result<(MetaControl, usize), ScanError>)
    ensures
        r is Ok ==> 2 < r->Ok_0.1 <= s@.len() && s@[1] == '=' && crate::cfg::terminal_wf(
            Terminal::Meta(r->Ok_0.0),
        ) && {
            let rest = s@.subrange(2, s@.len() as int);
            let k = r->Ok_0.1 - 2;
            match r->Ok_0.0 {
                MetaControl::ChangeInstrument(i) => s@[0] == 'i' && word_at_start(rest, k)
                    && spec_instrument_named(rest.subrange(0, k)) == Some(i),
                MetaControl::ChangeVolume(v) => s@[0] == 'v' && all_digits(rest.subrange(0, k)) && (k
                    < rest.len() ==> !is_digit(rest[k])) && v.0 == digits_value(rest.subrange(0, k)),
            }
        },
        (s@.len() < 2 || s@[1] != '=' || (s@[0] != 'i' && s@[0] != 'v')) ==> r is Err,
        r is Ok <==> spec_meta(s@) is Some,
        r is Ok ==> spec_meta(s@) == Some((r->Ok_0.0, r->Ok_0.1 as int)),
{
    if s.len() < 2 || s[1] != '=' {
        return Err(generic("expected i= or v="));
    }
    let rest = slice_subrange(s, 2, s.len());
    assert(rest@ == s@.subrange(2, s@.len() as int));
    if s[0] == 'i' {
        match scan_instrument(rest) {
            Ok((i, n)) => Ok((MetaControl::ChangeInstrument(i), n + 2)),
            Err(e) => Err(e),
        }
    } else if s[0] == 'v' {
        match scan_volume(rest) {
            Ok((v, n)) => {
                proof {
                    assert forall|j: int| 0 <= j < n implies is_digit(
                        #[trigger] rest@.subrange(0, n as int)[j],
                    ) by {
                        assert(rest@.subrange(0, n as int)[j] == rest@[j]);
                    }
                }
                Ok((MetaControl::ChangeVolume(v), n + 2))
            },
            Err(e) => Err(e),
        }
    } else {
        Err(generic("expected i= or v="))
    }
}

/// Reads what follows the `:` of a terminal: `:` and a control, or a note and a duration.
pub fn scan_terminal(s: &[char]) -> (r: Result<(Terminal, usize), ScanError>)
    ensures
        r is Ok ==> 0 < r->Ok_0.1 <= s@.len() && crate::cfg::terminal_wf(r->Ok_0.0),
        r is Ok ==> match r->Ok_0.0 {
            Terminal::Meta(_) => s@[0] == ':',
            Terminal::Music { duration, note } => {
                let a = spec_note(s@).unwrap().1;
                &&& s@[0] != ':'
                &&& spec_note(s@) == Some((note, a))
                &&& spec_duration(s@.subrange(a, s@.len() as int)) == Some(
                    (duration, r->Ok_0.1 - a),
                )
            },
        },
        (s@.len() > 0 && s@[0] != ':') ==> (r is Ok <==> (spec_note(s@) is Some && spec_duration(
            s@.subrange(spec_note(s@).unwrap().1, s@.len() as int),
        ) is Some)),
        r is Ok <==> spec_terminal(s@) is Some,
        r is Ok ==> spec_terminal(s@) == Some((r->Ok_0.0, r->Ok_0.1 as int)),
{
    if s.len() > 0 && s[0] == ':' {
        match scan_meta(slice_subrange(s, 1, s.len())) {
            Ok((m, n)) => Ok((Terminal::Meta(m), n + 1)),
            Err(e) => Err(e),
        }
    } else {
        match scan_note(s) {
            Ok((note, n)) => {
                proof {
                    reveal_note_wf(s@);
                }
                match scan_duration(slice_subrange(s, n, s.len())) {
                    Ok((duration, k)) => Ok((Terminal::Music { duration, note }, n + k)),
                    Err(e) => Err(e),
                }
            },
            Err(e) => Err(e),
        }
    }
}

proof fn reveal_note_wf(s: Seq<char>)
    ensures
        spec_note(s) is Some ==> 0 < spec_note(s).unwrap().1 <= s.len() && match spec_note(
            s,
        ).unwrap().0 {
            TerminalNote::Note { pitch } => pitch.wf(),
            TerminalNote::Rest => true,
        },
{
    reveal(spec_note);
}

/// Reads the longest run of name characters; there must be at least one.
pub fn scan_name(s: &[char]) -> (r: Result<(String, usize), ScanError>)
    ensures
        r is Ok ==> {
            let n = r->Ok_0.1 as int;
            &&& 0 < n <= s@.len()
            &&& r->Ok_0.0@ == s@.subrange(0, n)
            &&& forall|j: int| 0 <= j < n ==> is_name_char(#[trigger] s@[j])
            &&& (n < s@.len() ==> !is_name_char(s@[n]))
        },
        (s@.len() > 0 && is_name_char(s@[0])) <==> r is Ok,
        r is Ok ==> r->Ok_0.1 == name_end(s@, 0),
        r is Err ==> name_end(s@, 0) == 0,
{
    let mut k: usize = 0;
    while k < s.len() && name_char(s[k])
        invariant
            k <= s@.len(),
            name_end(s@, 0) == name_end(s@, k as int),
            forall|j: int| 0 <= j < k ==> is_name_char(#[trigger] s@[j]),
        decreases s@.len() - k,
    {
        k += 1;
    }
    if k == 0 {
        Err(generic("expected a non-terminal"))
    } else {
        Ok((string_of(slice_subrange(s, 0, k)), k))
    }
}

pub open spec fn spec_instrument(s: Seq<char>) -> Option<(Instrument, int)> {
    if s.len() > 0 && is_letter(s[0]) {
        let k = word_end(s, 1);
        match spec_instrument_named(s.subrange(0, k)) {
            Some(i) => Some((i, k)),
            None => None,
        }
    } else {
        None
    }
}

pub open spec fn spec_volume(s: Seq<char>) -> Option<(Volume, int)> {
    let k = digit_end(s, 0);
    if k > 0 && digits_value(s.subrange(0, k)) <= 100 {
        Some((Volume(digits_value(s.subrange(0, k)) as u8), k))
    } else {
        None
    }
}

/// `i=` and an instrument, or `v=` and a volume of at most 100.
pub open spec fn spec_meta(s: Seq<char>) -> Option<(MetaControl, int)> {
    if s.len() < 2 || s[1] != '=' {
        None
    } else if s[0] == 'i' {
        match spec_instrument(s.subrange(2, s.len() as int)) {
            Some((i, k)) => Some((MetaControl::ChangeInstrument(i), k + 2)),
            None => None,
        }
    } else if s[0] == 'v' {
        match spec_volume(s.subrange(2, s.len() as int)) {
            Some((v, k)) => Some((MetaControl::ChangeVolume(v), k + 2)),
            None => None,
        }
    } else {
        None
    }
}

/// What follows the `:` of a terminal: `:` and a control, or a note and its duration.
pub open spec fn spec_terminal(s: Seq<char>) -> Option<(Terminal, int)> {
    if s.len() > 0 && s[0] == ':' {
        match spec_meta(s.drop_first()) {
            Some((m, k)) => Some((Terminal::Meta(m), k + 1)),
            None => None,
        }
    } else {
        match spec_note(s) {
            Some((note, a)) => match spec_duration(s.subrange(a, s.len() as int)) {
                Some((duration, k)) => Some((Terminal::Music { duration, note }, a + k)),
                None => None,
            },
            None => None,
        }
    }
}

/// `:` and a terminal, or the name of a non-terminal.
pub open spec fn spec_symbol(s: Seq<char>) -> Option<(PrimView, int)> {
    if s.len() > 0 && s[0] == ':' {
        match spec_terminal(s.drop_first()) {
            Some((t, k)) => Some((PrimView::T(t), k + 1)),
            None => None,
        }
    } else {
        let n = name_end(s, 0);
        if n > 0 {
            Some((PrimView::NT(s.subrange(0, n)), n))
        } else {
            None
        }
    }
}

pub open spec fn glue_views(a: Seq<PrimView>, o: Option<Seq<PrimView>>) -> Option<Seq<PrimView>> {
    match o {
        Some(x) => Some(a + x),
        None => None,
    }
}

pub open spec fn glue_branches(a: Seq<Seq<PrimView>>, o: Option<Seq<Seq<PrimView>>>) -> Option<
    Seq<Seq<PrimView>>,
> {
    match o {
        Some(x) => Some(a + x),
        None => None,
    }
}

/// A music string: primitives separated by white space, up to the end of `s`.
pub open spec fn parse_string(s: Seq<char>) -> Option<Seq<PrimView>>
    decreases s.len(), 3int, 0int,
{
    parse_from(s, 0)
}

/// The primitives of `s` from index `i` on.
pub open spec fn parse_from(s: Seq<char>, i: int) -> Option<Seq<PrimView>>
    decreases s.len(), 2int, s.len() - i,
{
    let j = ws_end(s, i);
    if i < 0 || i > s.len() || j < i || j >= s.len() {
        Some(Seq::empty())
    } else {
        match parse_prim(s.subrange(j, s.len() as int)) {
            Some((p, n)) => if 0 < n && j + n <= s.len() {
                match parse_from(s, j + n) {
                    Some(rest) => Some(seq![p] + rest),
                    None => None,
                }
            } else {
                None
            },
            None => None,
        }
    }
}

/// One primitive at the start of `t` and how many characters it takes.
pub open spec fn parse_prim(t: Seq<char>) -> Option<(PrimView, int)>
    decreases t.len(), 1int, 0int,
{
    if t.len() > 0 && t[0] == '{' {
        parse_split(t)
    } else if t.len() > 0 && t[0] == '[' {
        parse_bracket(t)
    } else {
        spec_symbol(t)
    }
}

/// `{ a | b | ... }`, cut at the `|`s that no inner brace encloses.
pub open spec fn parse_split(t: Seq<char>) -> Option<(PrimView, int)>
    decreases t.len(), 0int, 0int,
{
    if t.len() == 0 || t[0] != '{' {
        None
    } else {
        match spec_matching(t.drop_first(), '{', '}') {
            None => None,
            Some(end) => if 0 <= end < t.len() - 1 {
                match parse_branches(t.drop_first().subrange(0, end), 0, 0, 0) {
                    Some(bs) => Some((PrimView::Split(bs), end + 2)),
                    None => None,
                }
            } else {
                None
            },
        }
    }
}

/// The branches of `inner[from..]`, scanning from `i` with `depth` braces open.
pub open spec fn parse_branches(inner: Seq<char>, from: int, i: int, depth: int) -> Option<
    Seq<Seq<PrimView>>,
>
    decreases inner.len(), 4int, inner.len() - i,
{
    if i < 0 || from < 0 || from > i {
        None
    } else if i >= inner.len() {
        if from <= inner.len() {
            match parse_string(inner.subrange(from, inner.len() as int)) {
                Some(b) => Some(seq![b]),
                None => None,
            }
        } else {
            None
        }
    } else {
        let c = inner[i];
        let d = if c == '{' {
            depth + 1
        } else if c == '}' && depth > 0 {
            depth - 1
        } else {
            depth
        };
        if c == '|' && d == 0 {
            match parse_string(inner.subrange(from, i)) {
                Some(b) => match parse_branches(inner, i + 1, i + 1, d) {
                    Some(bs) => Some(seq![b] + bs),
                    None => None,
                },
                None => None,
            }
        } else {
            parse_branches(inner, from, i + 1, d)
        }
    }
}

/// `[transform][ music ]`.
pub open spec fn parse_bracket(t: Seq<char>) -> Option<(PrimView, int)>
    decreases t.len(), 0int, 0int,
{
    if t.len() == 0 || t[0] != '[' {
        None
    } else {
        match first_index(t, ']') {
            None => None,
            Some(close) => if close < 1 || close + 1 >= t.len() || t[close + 1] != '[' {
                None
            } else {
                let rest = t.subrange(close + 2, t.len() as int);
                match spec_matching(rest, '[', ']') {
                    None => None,
                    Some(end) => if 0 <= end < rest.len() {
                        match (parse_string(rest.subrange(0, end)), spec_transform(t.subrange(1, close))) {
                            (Some(c), Some(tr)) => Some(
                                (PrimView::Transform(tr, c), close + 2 + end + 1),
                            ),
                            _ => None,
                        }
                    } else {
                        None
                    },
                }
            },
        }
    }
}

/// Reads a symbol: `:` and a terminal, or a non-terminal's name.
pub fn scan_symbol(s: &[char]) -> (r: Result<(Symbol, usize), ScanError>)
    ensures
        r is Ok ==> 0 < r->Ok_0.1 <= s@.len() && crate::cfg::primitive_wf(
            MusicPrimitive::Simple(r->Ok_0.0),
        ),
        r is Ok <==> spec_symbol(s@) is Some,
        r is Ok ==> spec_symbol(s@) == Some(
            (view_prim(MusicPrimitive::Simple(r->Ok_0.0)), r->Ok_0.1 as int),
        ),
{
    if s.len() > 0 && s[0] == ':' {
        match scan_terminal(slice_subrange(s, 1, s.len())) {
            Ok((t, n)) => Ok((Symbol::T(t), n + 1)),
            Err(e) => Err(e),
        }
    } else {
        match scan_name(s) {
            Ok((name, n)) => Ok((Symbol::NT(NonTerminal::Custom(name)), n)),
            Err(e) => Err(e),
        }
    }
}

/// Reads one primitive: a split in braces, a transform in brackets, or a symbol.
pub fn scan_primitive(s: &[char]) -> (r: Result<(MusicPrimitive, usize), ScanError>)
    ensures
        r is Ok ==> 0 < r->Ok_0.1 <= s@.len() && crate::cfg::primitive_wf(r->Ok_0.0),
        r is Ok <==> parse_prim(s@) is Some,
        r is Ok ==> parse_prim(s@) == Some((view_prim(r->Ok_0.0), r->Ok_0.1 as int)),
    decreases s@.len(), 2int,
{
    if s.len() > 0 && s[0] == '{' {
        scan_split(s)
    } else if s.len() > 0 && s[0] == '[' {
        scan_bracketed(s)
    } else {
        match scan_symbol(s) {
            Ok((sym, n)) => Ok((MusicPrimitive::Simple(sym), n)),
            Err(e) => Err(e),
        }
    }
}

/// Reads `{ a | b | ... }`: the branches are cut at the `|`s that no inner brace encloses.
#[verifier::rlimit(100)]
pub fn scan_split(s: &[char]) -> (r: Result<(MusicPrimitive, usize), ScanError>)
    ensures
        r is Ok ==> 0 < r->Ok_0.1 <= s@.len() && crate::cfg::primitive_wf(r->Ok_0.0),
        r is Ok <==> parse_split(s@) is Some,
        r is Ok ==> parse_split(s@) == Some((view_prim(r->Ok_0.0), r->Ok_0.1 as int)),
        (s@.len() > 0 && s@[0] == '{' && spec_matching(s@.drop_first(), '{', '}') is None) ==> r
            is Err && r->Err_0 == ScanError::UnbalancedBracket('{'),
    decreases s@.len(), 1int,
{
    if s.len() == 0 || s[0] != '{' {
        return Err(generic("expected '{'"));
    }
    let rest = slice_subrange(s, 1, s.len());
    assert(rest@ =~= s@.drop_first());
    let end = match matching(rest, '{', '}') {
        Some(e) => e,
        None => {
            return Err(ScanError::UnbalancedBracket('{'));
        },
    };
    let inner = slice_subrange(rest, 0, end);
    assert(inner@ == s@.drop_first().subrange(0, end as int));
    let ghost whole = parse_branches(inner@, 0, 0, 0);
    let mut branches: Vec<MusicString> = Vec::new();
    let mut from: usize = 0;
    let mut depth: usize = 0;
    let mut i: usize = 0;
    proof {
        assert(view_branches(branches@) == Seq::<Seq<PrimView>>::empty());
        match whole {
            Some(x) => {
                assert(Seq::<Seq<PrimView>>::empty() + x =~= x);
            },
            None => {},
        }
    }
    while i < inner.len()
        invariant
            inner@.len() < s@.len(),
            s@.len() > 0 && s@[0] == '{',
            spec_matching(s@.drop_first(), '{', '}') == Some(end as int),
            end < s@.len() - 1,
            inner@ == s@.drop_first().subrange(0, end as int),
            from <= i <= inner@.len(),
            depth <= i,
            whole == parse_branches(inner@, 0, 0, 0),
            whole == glue_branches(
                view_branches(branches@),
                parse_branches(inner@, from as int, i as int, depth as int),
            ),
            forall|j: int| 0 <= j < branches@.len() ==> string_wf(#[trigger] branches@[j]),
        decreases inner@.len() - i,
    {
        let c = inner[i];
        let ghost d0 = depth as int;
        if c == '{' && depth < usize::MAX {
            depth += 1;
        } else if c == '}' && depth > 0 {
            depth -= 1;
        }
        let ghost d1 = depth as int;
        assert(d1 == (if c == '{' {
            d0 + 1
        } else if c == '}' && d0 > 0 {
            d0 - 1
        } else {
            d0
        }));
        if c == '|' && depth == 0 {
            let piece = slice_subrange(inner, from, i);
            assert(parse_branches(inner@, from as int, i as int, d0) == match parse_string(
                inner@.subrange(from as int, i as int),
            ) {
                Some(b) => match parse_branches(inner@, i + 1, i + 1, d1) {
                    Some(bs) => Some(seq![b] + bs),
                    None => None,
                },
                None => None,
            });
            assert(piece@ == inner@.subrange(from as int, i as int));
            match scan_music_string(piece) {
                Ok((ms, _n)) => {
                    let ghost old_b = branches@;
                    branches.push(ms);
                    proof {
                        assert(branches@.drop_last() =~= old_b);
                        let b = view_prims(ms.0@);
                        match parse_branches(inner@, i + 1, i + 1, depth as int) {
                            Some(bs) => {
                                assert(view_branches(old_b) + (seq![b] + bs) =~= view_branches(
                                    branches@,
                                ) + bs);
                            },
                            None => {},
                        }
                    }
                },
                Err(e) => {
                    return Err(e);
                },
            }
            from = i + 1;
        } else {
            assert(parse_branches(inner@, from as int, i as int, d0) == parse_branches(
                inner@,
                from as int,
                i + 1,
                d1,
            ));
        }
        i += 1;
    }
    let piece = slice_subrange(inner, from, inner.len());
    assert(piece@ == inner@.subrange(from as int, inner@.len() as int));
    match scan_music_string(piece) {
        Ok((ms, _n)) => {
            let ghost old_b = branches@;
            branches.push(ms);
            proof {
                assert(branches@.drop_last() =~= old_b);
                assert(view_branches(old_b) + seq![view_prims(ms.0@)] =~= view_branches(branches@));
            }
        },
        Err(e) => {
            return Err(e);
        },
    }
    Ok((MusicPrimitive::Split { branches }, end + 2))
}

/// Reads `[transform][ music ]`.
#[verifier::rlimit(50)]
pub fn scan_bracketed(s: &[char]) -> (r: Result<(MusicPrimitive, usize), ScanError>)
    ensures
        r is Ok ==> 0 < r->Ok_0.1 <= s@.len() && crate::cfg::primitive_wf(r->Ok_0.0),
        r is Ok <==> parse_bracket(s@) is Some,
        r is Ok ==> parse_bracket(s@) == Some((view_prim(r->Ok_0.0), r->Ok_0.1 as int)),
        (s@.len() > 0 && s@[0] == '[' && first_index(s@, ']') is None) ==> r is Err && r->Err_0
            == ScanError::UnbalancedBracket('['),
        (s@.len() > 0 && s@[0] == '[' && first_index(s@, ']') is Some && ({
            let close = first_index(s@, ']').unwrap();
            close + 1 < s@.len() && s@[close + 1] == '[' && spec_matching(
                s@.subrange(close + 2, s@.len() as int),
                '[',
                ']',
            ) is None
        })) ==> r is Err && r->Err_0 == ScanError::UnbalancedBracket('['),
    decreases s@.len(), 1int,
{
    if s.len() == 0 || s[0] != '[' {
        return Err(generic("expected '['"));
    }
    let close = match find_char(s, ']') {
        Some(c) => c,
        None => {
            return Err(ScanError::UnbalancedBracket('['));
        },
    };
    if close + 1 >= s.len() || s[close + 1] != '[' {
        return Err(generic("expected '[' after the transform"));
    }
    let rest = slice_subrange(s, close + 2, s.len());
    assert(rest@ == s@.subrange(close + 2, s@.len() as int));
    let end = match matching(rest, '[', ']') {
        Some(e) => e,
        None => {
            return Err(ScanError::UnbalancedBracket('['));
        },
    };
    let content = match scan_music_string(slice_subrange(rest, 0, end)) {
        Ok((ms, _n)) => ms,
        Err(e) => {
            return Err(e);
        },
    };
    let text = slice_subrange(s, 1, close);
    assert(text@ == s@.subrange(1, close as int));
    let transform = match scan_transform(text) {
        Ok(t) => t,
        Err(e) => {
            return Err(e);
        },
    };
    Ok((MusicPrimitive::Transform { transform, content }, close + 2 + end + 1))
}

/// Reads primitives separated by white space until the end of `s`.
#[verifier::rlimit(100)]
pub fn scan_music_string(s: &[char]) -> (r: Result<(MusicString, usize), ScanError>)
    ensures
        r is Ok ==> string_wf(r->Ok_0.0) && r->Ok_0.1 == s@.len(),
        r is Ok <==> parse_string(s@) is Some,
        r is Ok ==> parse_string(s@) == Some(view_prims(r->Ok_0.0.0@)),
    decreases s@.len(), 3int,
{
    let ghost whole = parse_string(s@);
    let mut prims: Vec<MusicPrimitive> = Vec::new();
    let mut i: usize = 0;
    proof {
        assert(view_prims(prims@) == Seq::<PrimView>::empty());
        match whole {
            Some(x) => {
                assert(Seq::<PrimView>::empty() + x =~= x);
            },
            None => {},
        }
    }
    while i < s.len()
        invariant
            i <= s@.len(),
            whole == parse_string(s@),
            whole == glue_views(view_prims(prims@), parse_from(s@, i as int)),
            forall|j: int| 0 <= j < prims@.len() ==> crate::cfg::primitive_wf(#[trigger] prims@[j]),
        decreases s@.len() - i,
    {
        let j = skip_ws(s, i);
        if j == s.len() {
            proof {
                assert(parse_from(s@, i as int) == Some(Seq::<PrimView>::empty()));
                assert(view_prims(prims@) + Seq::<PrimView>::empty() =~= view_prims(prims@));
            }
            let ms = MusicString(prims);
            assert(string_wf(ms));
            return Ok((ms, s.len()));
        }
        let rest = slice_subrange(s, j, s.len());
        assert(rest@ == s@.subrange(j as int, s@.len() as int));
        match scan_primitive(rest) {
            Ok((p, n)) => {
                let ghost old_p = prims@;
                prims.push(p);
                proof {
                    assert(prims@.drop_last() =~= old_p);
                    match parse_from(s@, j + n) {
                        Some(x) => {
                            assert(view_prims(old_p) + (seq![view_prim(p)] + x) =~= view_prims(prims@) + x);
                        },
                        None => {},
                    }
                }
                i = j + n;
            },
            Err(e) => {
                return Err(e);
            },
        }
    }
    proof {
        assert(ws_end(s@, i as int) == i);
        assert(parse_from(s@, i as int) == Some(Seq::<PrimView>::empty()));
        assert(view_prims(prims@) + Seq::<PrimView>::empty() =~= view_prims(prims@));
    }
    let ms = MusicString(prims);
    assert(string_wf(ms));
    Ok((ms, s.len()))
}

/// The end of the line that starts at `i`: the next newline, or the end of the text.
pub open spec fn line_end(s: Seq<char>, i: int) -> int
    decreases s.len() - i,
{
    if i < 0 || i >= s.len() || s[i] == '\n' {
        i
    } else {
        line_end(s, i + 1)
    }
}

/// `b` moved back over the white space that ends `s[a..b]`.
pub open spec fn trim_back(s: Seq<char>, a: int, b: int) -> int
    decreases b,
{
    if b > a && b > 0 && is_ws(s[b - 1]) {
        trim_back(s, a, b - 1)
    } else {
        b
    }
}

fn find_line_end(s: &[char], i: usize) -> (r: usize)
    requires
        i <= s@.len(),
    ensures
        r == line_end(s@, i as int),
        i <= r <= s@.len(),
{
    let mut k = i;
    while k < s.len() && s[k] != '\n'
        invariant
            i <= k <= s@.len(),
            line_end(s@, i as int) == line_end(s@, k as int),
        decreases s@.len() - k,
    {
        k += 1;
    }
    k
}

/// The line `s[from..to]` without white space at either end.
pub fn trimmed(s: &[char], from: usize, to: usize) -> (r: (usize, usize))
    requires
        from <= to <= s@.len(),
    ensures
        from <= r.0 <= r.1 <= to,
        r.0 == ws_end(s@.subrange(0, to as int), from as int),
        r.1 == trim_back(s@, r.0 as int, to as int),
{
    let head = slice_subrange(s, 0, to);
    let a = skip_ws(head, from);
    let mut b = to;
    while b > a && ws(s[b - 1])
        invariant
            from <= a <= b <= to <= s@.len(),
            trim_back(s@, a as int, to as int) == trim_back(s@, a as int, b as int),
        decreases b,
    {
        b -= 1;
    }
    (a, b)
}

/// The line is neither blank nor a comment.
pub open spec fn significant(line: Seq<char>) -> bool {
    line.len() > 0 && !(line.len() >= 2 && line[0] == '/' && line[1] == '/')
}

/// The trimmed significant lines of `s` from the line that starts at `i` on.
pub open spec fn grammar_lines(s: Seq<char>, i: int) -> Seq<Seq<char>>
    decreases s.len() + 1 - i,
{
    if i < 0 || i > s.len() {
        Seq::empty()
    } else {
        let e = line_end(s, i);
        let a = ws_end(s.subrange(0, e), i);
        let line = s.subrange(a, trim_back(s, a, e));
        let rest = if i <= e < s.len() {
            grammar_lines(s, e + 1)
        } else {
            Seq::empty()
        };
        if significant(line) {
            seq![line] + rest
        } else {
            rest
        }
    }
}

/// The line begins with `start `.
pub open spec fn has_start_prefix(line: Seq<char>) -> bool {
    line.len() >= 6 && line[0] == 's' && line[1] == 't' && line[2] == 'a' && line[3] == 'r'
        && line[4] == 't' && line[5] == ' '
}

/// The name that a `start NAME` line gives.
pub open spec fn spec_start(line: Seq<char>) -> Option<Seq<char>> {
    if line.len() < 6 || line[0] != 's' || line[1] != 't' || line[2] != 'a' || line[3] != 'r'
        || line[4] != 't' || line[5] != ' ' {
        None
    } else {
        let rest = line.subrange(6, line.len() as int);
        let at = ws_end(rest, 0);
        let tail = rest.subrange(at, rest.len() as int);
        let n = name_end(tail, 0);
        if n > 0 {
            Some(tail.subrange(0, n))
        } else {
            None
        }
    }
}

/// The productions of the given lines, or `None` when one of them is not a production.
pub open spec fn spec_productions(lines: Seq<Seq<char>>) -> Option<Seq<(Seq<char>, Seq<PrimView>)>>
    decreases lines.len(),
{
    if lines.len() == 0 {
        Some(Seq::empty())
    } else {
        match (spec_productions(lines.drop_last()), spec_production(lines.last())) {
            (Some(ps), Some(p)) => Some(ps.push(p)),
            _ => None,
        }
    }
}

/// A grammar text: the start name and the productions.
pub open spec fn spec_grammar(s: Seq<char>) -> Option<(Seq<char>, Seq<(Seq<char>, Seq<PrimView>)>)> {
    let lines = grammar_lines(s, 0);
    if lines.len() == 0 {
        None
    } else {
        match (spec_start(lines[0]), spec_productions(lines.drop_first())) {
            (Some(n), Some(ps)) => Some((n, ps)),
            _ => None,
        }
    }
}

/// A production line `name = music`: the name and the music.
pub open spec fn spec_production(s: Seq<char>) -> Option<(Seq<char>, Seq<PrimView>)> {
    let n = name_end(s, 0);
    let at = ws_end(s, n);
    if n == 0 || at >= s.len() || s[at] != '=' {
        None
    } else {
        match parse_string(s.subrange(at + 1, s.len() as int)) {
            Some(body) => Some((s.subrange(0, n), body)),
            None => None,
        }
    }
}

/// Reads `name = music` from a whole line.
pub fn scan_production(s: &[char]) -> (r: Result<(Production, usize), ScanError>)
    ensures
        r is Ok ==> string_wf(r->Ok_0.0.1) && r->Ok_0.1 == s@.len(),
        r is Ok <==> spec_production(s@) is Some,
        r is Ok ==> spec_production(s@) == Some(
            (crate::grammar::name_of(r->Ok_0.0.0), view_prims(r->Ok_0.0.1.0@)),
        ),
{
    let (name, n) = match scan_name(s) {
        Ok(x) => x,
        Err(e) => {
            return Err(e);
        },
    };
    let at = skip_ws(s, n);
    if at >= s.len() || s[at] != '=' {
        return Err(generic("expected '=' after the non-terminal"));
    }
    let body = slice_subrange(s, at + 1, s.len());
    assert(body@ == s@.subrange(at + 1, s@.len() as int));
    match scan_music_string(body) {
        Ok((ms, _k)) => Ok((Production(NonTerminal::Custom(name), ms), s.len())),
        Err(e) => Err(e),
    }
}

pub open spec fn grammar_wf(g: Grammar) -> bool {
    forall|k: int| 0 <= k < g.productions@.len() ==> string_wf(#[trigger] g.productions@[k].1)
}

proof fn lemma_grammar_lines_step(s: Seq<char>, i: int)
    requires
        0 <= i <= s.len(),
    ensures
        ({
            let e = line_end(s, i);
            let a = ws_end(s.subrange(0, e), i);
            let line = s.subrange(a, trim_back(s, a, e));
            let rest = if i <= e < s.len() {
                grammar_lines(s, e + 1)
            } else {
                Seq::empty()
            };
            grammar_lines(s, i) == if significant(line) {
                seq![line] + rest
            } else {
                rest
            }
        }),
{
}

proof fn lemma_productions_prefix_none(lines: Seq<Seq<char>>, k: int)
    requires
        0 <= k <= lines.len(),
        spec_productions(lines.subrange(0, k)) is None,
    ensures
        spec_productions(lines) is None,
    decreases lines.len() - k,
{
    if k < lines.len() {
        assert(lines.subrange(0, k + 1).drop_last() =~= lines.subrange(0, k));
        lemma_productions_prefix_none(lines, k + 1);
    } else {
        assert(lines.subrange(0, k) =~= lines);
    }
}

/// Reads a `start NAME` line.
fn scan_start(line: &[char]) -> (r: Result<NonTerminal, ScanError>)
    ensures
        r is Ok <==> spec_start(line@) is Some,
        r is Ok ==> spec_start(line@) == Some(crate::grammar::name_of(r->Ok_0)),
        !has_start_prefix(line@) ==> r is Err && r->Err_0 is MissingStart,
{
    if line.len() < 6 || line[0] != 's' || line[1] != 't' || line[2] != 'a' || line[3] != 'r'
        || line[4] != 't' || line[5] != ' ' {
        return Err(ScanError::MissingStart);
    }
    let rest = slice_subrange(line, 6, line.len());
    let at = skip_ws(rest, 0);
    let tail = slice_subrange(rest, at, rest.len());
    assert(rest@ == line@.subrange(6, line@.len() as int));
    assert(tail@ == rest@.subrange(at as int, rest@.len() as int));
    match scan_name(tail) {
        Ok((name, _n)) => Ok(NonTerminal::Custom(name)),
        Err(e) => Err(e),
    }
}

/// Reads a grammar: a first line `start NAME`, then one production per line. Blank lines
/// and lines that begin with `//` are left out.
#[verifier::rlimit(100)]
pub fn scan_grammar(s: &[char]) -> (r: Result<(Grammar, usize), ScanError>)
    ensures
        r is Ok ==> grammar_wf(r->Ok_0.0) && r->Ok_0.1 == s@.len(),
        r is Ok <==> spec_grammar(s@) is Some,
        r is Ok ==> spec_grammar(s@) == Some(
            (
                crate::grammar::name_of(r->Ok_0.0.start),
                crate::grammar::productions_view(r->Ok_0.0),
            ),
        ),
        grammar_lines(s@, 0).len() == 0 ==> r is Err && r->Err_0 is MissingStart,
        (grammar_lines(s@, 0).len() > 0 && !has_start_prefix(grammar_lines(s@, 0)[0])) ==> r is Err
            && r->Err_0 is MissingStart,
{
    let ghost all = grammar_lines(s@, 0);
    let ghost mut found: Seq<Seq<char>> = Seq::empty();
    let mut start: Option<NonTerminal> = None;
    let mut productions: Vec<Production> = Vec::new();
    let mut pos: usize = 0;
    assert(all =~= found + grammar_lines(s@, 0));
    loop
        invariant_except_break
            all == found + grammar_lines(s@, pos as int),
        invariant
            pos <= s@.len(),
            all == grammar_lines(s@, 0),
            start is None <==> found.len() == 0,
            start is None ==> productions@.len() == 0,
            start is Some ==> spec_start(found[0]) == Some(crate::grammar::name_of(start.unwrap())),
            found.len() > 0 ==> spec_productions(found.drop_first()) == Some(
                productions@.map_values(
                    |p: Production| (crate::grammar::name_of(p.0), view_prims(p.1.0@)),
                ),
            ),
            forall|k: int| 0 <= k < productions@.len() ==> string_wf(#[trigger] productions@[k].1),
        ensures
            all == found,
        decreases s@.len() - pos,
    {
        let e = find_line_end(s, pos);
        let (a, b) = trimmed(s, pos, e);
        let line = slice_subrange(s, a, b);
        let ghost later: Seq<Seq<char>> = if pos <= e < s@.len() {
            grammar_lines(s@, e + 1)
        } else {
            Seq::empty()
        };
        assert(line@ == s@.subrange(a as int, b as int));
        let comment = line.len() >= 2 && line[0] == '/' && line[1] == '/';
        proof {
            lemma_grammar_lines_step(s@, pos as int);
        }
        if line.len() > 0 && !comment {
            assert(grammar_lines(s@, pos as int) == seq![line@] + later);
            match start {
                None => {
                    match scan_start(line) {
                        Ok(nt) => {
                            start = Some(nt);
                        },
                        Err(e) => {
                            assert(all[0] == line@);
                            return Err(e);
                        },
                    }
                    proof {
                        found = found.push(line@);
                        assert(found.drop_first() =~= Seq::<Seq<char>>::empty());
                        assert(productions@.map_values(
                            |p: Production| (crate::grammar::name_of(p.0), view_prims(p.1.0@)),
                        ) =~= Seq::empty());
                        assert(all =~= found + later);
                    }
                },
                Some(_) => {
                    match scan_production(line) {
                        Ok((p, _n)) => {
                            let ghost before = productions@;
                            productions.push(p);
                            proof {
                                let old_found = found;
                                found = found.push(line@);
                                assert(found.drop_first() =~= old_found.drop_first().push(line@));
                                assert(found.drop_first().drop_last() =~= old_found.drop_first());
                                assert(productions@.map_values(
                                    |q: Production| (crate::grammar::name_of(q.0), view_prims(q.1.0@)),
                                ) =~= before.map_values(
                                    |q: Production| (crate::grammar::name_of(q.0), view_prims(q.1.0@)),
                                ).push((crate::grammar::name_of(p.0), view_prims(p.1.0@))));
                                assert(all =~= found + later);
                            }
                        },
                        Err(e) => {
                            proof {
                                let lines = all.drop_first();
                                let k = found.len() - 1;
                                assert(all =~= found + (seq![line@] + later));
                                assert(lines.subrange(0, k + 1) =~= found.drop_first().push(line@));
                                assert(lines.subrange(0, k + 1).drop_last() =~= found.drop_first());
                                lemma_productions_prefix_none(lines, k + 1);
                            }
                            return Err(e);
                        },
                    }
                },
            }
        } else {
            assert(grammar_lines(s@, pos as int) == later);
        }
        if e == s.len() {
            proof {
                assert(later =~= Seq::<Seq<char>>::empty());
                assert(all =~= found);
            }
            break;
        }
        pos = e + 1;
    }
    match start {
        Some(start) => {
            let g = Grammar { start, productions };
            proof {
                assert(all.drop_first() =~= found.drop_first());
                assert(crate::grammar::productions_view(g) =~= productions@.map_values(
                    |p: Production| (crate::grammar::name_of(p.0), view_prims(p.1.0@)),
                ));
            }
            Ok((g, s.len()))
        },
        None => Err(ScanError::MissingStart),
    }
}

impl MusicString {
    /// Reads a whole text as a music string.
    pub fn parse(s: &str) -> (r: Result<MusicString, ScanError>)
        ensures
            r is Ok ==> string_wf(r->Ok_0),
            r is Ok <==> parse_string(s@) is Some,
            r is Ok ==> parse_string(s@) == Some(view_prims(r->Ok_0.0@)),
    {
        let cs = chars_of(s);
        match scan_music_string(cs.as_slice()) {
            Ok((ms, _n)) => Ok(ms),
            Err(e) => Err(e),
        }
    }
}

impl Grammar {
    /// Reads a whole text as a grammar.
    pub fn parse(s: &str) -> (r: Result<Grammar, ScanError>)
        ensures
            r is Ok ==> grammar_wf(r->Ok_0),
            r is Ok <==> spec_grammar(s@) is Some,
            r is Ok ==> spec_grammar(s@) == Some(
                (
                    crate::grammar::name_of(r->Ok_0.start),
                    crate::grammar::productions_view(r->Ok_0),
                ),
            ),
    {
        let cs = chars_of(s);
        match scan_grammar(cs.as_slice()) {
            Ok((g, _n)) => Ok(g),
            Err(e) => Err(e),
        }
    }
}

pub open spec fn digit_char(d: int) -> char {
    if d == 0 {
        '0'
    } else if d == 1 {
        '1'
    } else if d == 2 {
        '2'
    } else if d == 3 {
        '3'
    } else if d == 4 {
        '4'
    } else if d == 5 {
        '5'
    } else if d == 6 {
        '6'
    } else if d == 7 {
        '7'
    } else if d == 8 {
        '8'
    } else {
        '9'
    }
}

/// The letter that names a semitone offset, and whether a `#` follows it.
pub open spec fn semitone_name(s: int) -> (char, bool) {
    if s == 0 {
        ('a', false)
    } else if s == 1 {
        ('a', true)
    } else if s == 2 {
        ('b', false)
    } else if s == 3 {
        ('c', false)
    } else if s == 4 {
        ('c', true)
    } else if s == 5 {
        ('d', false)
    } else if s == 6 {
        ('d', true)
    } else if s == 7 {
        ('e', false)
    } else if s == 8 {
        ('f', false)
    } else if s == 9 {
        ('f', true)
    } else if s == 10 {
        ('g', false)
    } else {
        ('g', true)
    }
}

/// A note has a canonical text when it is a rest or its octave is a single digit.
pub open spec fn note_canonical(n: TerminalNote) -> bool {
    match n {
        TerminalNote::Rest => true,
        TerminalNote::Note { pitch } => 0 <= pitch.0 <= 9 && pitch.1 < 12,
    }
}

/// The canonical text of a note: `_`, or the octave digit, the lower-case letter and a `#`
/// for the semitones between letters.
pub open spec fn note_text(n: TerminalNote) -> Seq<char> {
    match n {
        TerminalNote::Rest => seq!['_'],
        TerminalNote::Note { pitch } => {
            let (l, sharp) = semitone_name(pitch.1 as int);
            if sharp {
                seq![digit_char(pitch.0 as int), l, '#']
            } else {
                seq![digit_char(pitch.0 as int), l]
            }
        },
    }
}

/// Writes a note in its canonical text.
pub fn format_note(n: TerminalNote) -> (r: Vec<char>)
    requires
        note_canonical(n),
    ensures
        r@ == note_text(n),
{
    match n {
        TerminalNote::Rest => vec!['_'],
        TerminalNote::Note { pitch } => {
            let digits = ['0', '1', '2', '3', '4', '5', '6', '7', '8', '9'];
            let d = digits[pitch.0 as usize];
            let (l, sharp): (char, bool) = match pitch.1 {
                0 => ('a', false),
                1 => ('a', true),
                2 => ('b', false),
                3 => ('c', false),
                4 => ('c', true),
                5 => ('d', false),
                6 => ('d', true),
                7 => ('e', false),
                8 => ('f', false),
                9 => ('f', true),
                10 => ('g', false),
                _ => ('g', true),
            };
            let mut out = vec![d, l];
            if sharp {
                out.push('#');
            }
            assert(d == digit_char(pitch.0 as int));
            assert(out@ =~= note_text(n));
            out
        },
    }
}

/// Reading the canonical text of a note gives the note back, using all of the text.
pub proof fn note_round_trip(n: TerminalNote)
    requires
        note_canonical(n),
    ensures
        spec_note(note_text(n)) == Some((n, note_text(n).len() as int)),
{
    reveal(spec_note);
}

} // verus!
