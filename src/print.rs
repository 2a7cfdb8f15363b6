//! The canonical text of simple music strings, and reading it back.
use crate::cfg::{MetaControl, MusicTransform, Terminal, TerminalNote};
use crate::composition::Volume;
use crate::frac::{frac_of, Frac};
use crate::grammar::PrimView;
use crate::scan::{
    all_digits, balance, digit_char, digit_end, digit_value, digits_value, first_index,
    is_digit, is_name_char, is_ws, name_end, note_canonical, note_text, parse_from, parse_prim,
    parse_string, spec_duration, spec_matching, spec_meta, spec_note, spec_symbol, spec_terminal,
    spec_volume, uint_text, ws_end,
};
use vstd::prelude::*;

verus! {

/// The decimal digits of `n`.
pub open spec fn num_text(n: nat) -> Seq<char>
    decreases n,
{
    if n < 10 {
        seq![digit_char(n as int)]
    } else {
        num_text(n / 10).push(digit_char((n % 10) as int))
    }
}

proof fn lemma_digit_char(d: int)
    requires
        0 <= d < 10,
    ensures
        is_digit(digit_char(d)),
        digit_value(digit_char(d)) == d,
{
}

proof fn lemma_num_text(n: nat)
    ensures
        num_text(n).len() > 0,
        all_digits(num_text(n)),
        digits_value(num_text(n)) == n,
    decreases n,
{
    if n < 10 {
        lemma_digit_char(n as int);
        assert(num_text(n).drop_last() =~= Seq::<char>::empty());
        assert(digits_value(Seq::<char>::empty()) == 0);
        assert(num_text(n).last() == digit_char(n as int));
    } else {
        lemma_num_text(n / 10);
        lemma_digit_char((n % 10) as int);
        let t = num_text(n);
        assert(t.drop_last() =~= num_text(n / 10));
        assert(t.last() == digit_char((n % 10) as int));
        vstd::arithmetic::div_mod::lemma_fundamental_div_mod(n as int, 10);
        assert(digits_value(t) == digits_value(num_text(n / 10)) * 10 + digit_value(
            digit_char((n % 10) as int),
        ));
        assert forall|j: int| 0 <= j < t.len() implies is_digit(#[trigger] t[j]) by {
            if j < t.len() - 1 {
                assert(t[j] == num_text(n / 10)[j]);
            }
        }
    }
}

/// `<n/d>`.
pub open spec fn duration_text(d: Frac) -> Seq<char> {
    seq!['<'] + num_text(d.num as nat) + seq!['/'] + num_text(d.den as nat) + seq!['>']
}

/// The text of a transform: `x` and the count, `T` and the signed semitones, or `>>` and
/// the speed-up, which is the reciprocal of the time factor.
pub open spec fn transform_text(t: MusicTransform) -> Seq<char> {
    match t {
        MusicTransform::Repeat { num } => seq!['x'] + num_text(num as nat),
        MusicTransform::Transpose { semitones } => if semitones >= 0 {
            seq!['T'] + num_text(semitones as nat)
        } else {
            seq!['T', '-'] + num_text((-semitones) as nat)
        },
        MusicTransform::Compression { factor } => seq!['>', '>'] + num_text(factor.den as nat)
            + seq!['/'] + num_text(factor.num as nat),
    }
}

/// A transform has a canonical text when its count is positive, its semitones are not the
/// most negative machine number, and its factor is positive and in lowest terms both ways up.
pub open spec fn transform_canonical(t: MusicTransform) -> bool {
    match t {
        MusicTransform::Repeat { num } => num > 0 && num <= u64::MAX,
        MusicTransform::Transpose { semitones } => semitones > i64::MIN,
        MusicTransform::Compression { factor } => {
            &&& factor.num > 0
            &&& factor.den > 0
            &&& frac_of(factor.num as int, factor.den as int) == Some(factor)
            &&& frac_of(factor.den as int, factor.num as int) == Some(
                Frac { num: factor.den, den: factor.num },
            )
        },
    }
}

/// The text of a primitive that has a canonical one.
pub open spec fn prim_text(p: PrimView) -> Seq<char>
    decreases p,
{
    match p {
        PrimView::NT(name) => name,
        PrimView::T(Terminal::Music { duration, note }) => seq![':'] + note_text(note)
            + duration_text(duration),
        PrimView::T(Terminal::Meta(MetaControl::ChangeVolume(v))) => seq![':', ':', 'v', '=']
            + num_text(v.0 as nat),
        PrimView::Transform(t, c) => seq!['['] + transform_text(t) + seq![']', '['] + flat_text(c)
            + seq![']'],
        _ => Seq::empty(),
    }
}

/// Names, notes with a duration in lowest terms, volume changes, and transforms of such
/// music have a canonical text.
pub open spec fn prim_canonical(p: PrimView) -> bool
    decreases p,
{
    match p {
        PrimView::NT(name) => name.len() > 0 && forall|i: int|
            0 <= i < name.len() ==> is_name_char(#[trigger] name[i]),
        PrimView::T(Terminal::Music { duration, note }) => {
            &&& note_canonical(note)
            &&& duration.num >= 0
            &&& duration.den > 0
            &&& frac_of(duration.num as int, duration.den as int) == Some(duration)
        },
        PrimView::T(Terminal::Meta(MetaControl::ChangeVolume(v))) => v.0 <= 100,
        PrimView::Transform(t, c) => transform_canonical(t) && forall|i: int|
            0 <= i < c.len() ==> prim_canonical(#[trigger] c[i]),
        _ => false,
    }
}

/// The primitives' texts, each followed by a space.
pub open spec fn flat_text(ps: Seq<PrimView>) -> Seq<char>
    decreases ps,
{
    if ps.len() == 0 {
        Seq::empty()
    } else {
        prim_text(ps[0]) + seq![' '] + flat_text(ps.drop_first())
    }
}

proof fn lemma_ws_end_shift(a: Seq<char>, b: Seq<char>, i: int)
    requires
        0 <= i <= b.len(),
    ensures
        ws_end(a + b, a.len() + i) == a.len() + ws_end(b, i),
    decreases b.len() - i,
{
    if i < b.len() {
        assert((a + b)[a.len() + i] == b[i]);
        if is_ws(b[i]) {
            lemma_ws_end_shift(a, b, i + 1);
        }
    }
}

proof fn lemma_ws_end_range(s: Seq<char>, i: int)
    requires
        0 <= i <= s.len(),
    ensures
        i <= ws_end(s, i) <= s.len(),
    decreases s.len() - i,
{
    if i < s.len() && is_ws(s[i]) {
        lemma_ws_end_range(s, i + 1);
    }
}

/// Reading past a prefix is reading what follows it.
proof fn lemma_parse_from_shift(a: Seq<char>, b: Seq<char>, i: int)
    requires
        0 <= i <= b.len(),
    ensures
        parse_from(a + b, a.len() + i) == parse_from(b, i),
    decreases b.len() - i,
{
    let s = a + b;
    lemma_ws_end_shift(a, b, i);
    lemma_ws_end_range(b, i);
    let j = ws_end(b, i);
    if j < b.len() {
        assert(s.subrange(a.len() + j, s.len() as int) =~= b.subrange(j, b.len() as int));
        match parse_prim(b.subrange(j, b.len() as int)) {
            Some((p, n)) => {
                if 0 < n && j + n <= b.len() {
                    lemma_parse_from_shift(a, b, j + n);
                }
            },
            None => {},
        }
    }
}

/// Starting at `i` or at any later point before the same next non-space reads the same.
proof fn lemma_parse_from_ws(s: Seq<char>, i: int)
    requires
        0 <= i < s.len(),
        is_ws(s[i]),
    ensures
        parse_from(s, i) == parse_from(s, i + 1),
{
    lemma_ws_end_range(s, i + 1);
}

proof fn lemma_name_end(s: Seq<char>, i: int, k: int)
    requires
        0 <= i <= k <= s.len(),
        forall|j: int| i <= j < k ==> is_name_char(#[trigger] s[j]),
        k < s.len() ==> !is_name_char(s[k]),
    ensures
        name_end(s, i) == k,
    decreases k - i,
{
    if i < k {
        lemma_name_end(s, i + 1, k);
    }
}

proof fn lemma_digit_end(s: Seq<char>, i: int, k: int)
    requires
        0 <= i <= k <= s.len(),
        forall|j: int| i <= j < k ==> is_digit(#[trigger] s[j]),
        k < s.len() ==> !is_digit(s[k]),
    ensures
        digit_end(s, i) == k,
    decreases k - i,
{
    if i < k {
        lemma_digit_end(s, i + 1, k);
    }
}

proof fn lemma_note_prefix(n: TerminalNote, rest: Seq<char>)
    requires
        note_canonical(n),
        rest.len() > 0,
        rest[0] == '<',
    ensures
        spec_note(note_text(n) + rest) == Some((n, note_text(n).len() as int)),
{
    reveal(spec_note);
    let s = note_text(n) + rest;
    match n {
        TerminalNote::Rest => {
            assert(s[0] == '_');
        },
        TerminalNote::Note { pitch } => {
            assert(s[0] == note_text(n)[0]);
            assert(s[1] == note_text(n)[1]);
            if note_text(n).len() == 3 {
                assert(s[2] == '#');
                assert(s[3] == '<');
            } else {
                assert(s[2] == '<');
            }
        },
    }
}

/// A text free of angle brackets, then `>`: the `>` closes an already open `<`.
proof fn lemma_matching_close(inner: Seq<char>, rest: Seq<char>)
    requires
        forall|j: int| 0 <= j < inner.len() ==> inner[j] != '<' && inner[j] != '>',
    ensures
        spec_matching(inner + seq!['>'] + rest, '<', '>') == Some(inner.len() as int),
{
    reveal(spec_matching);
    let after = inner + seq!['>'] + rest;
    let m = inner.len() as int;
    assert forall|j: int| 0 <= j < m implies after[j] != '<' && after[j] != '>' by {
        assert(after[j] == inner[j]);
    }
    assert forall|k: int| 0 <= k <= m implies balance(after, k, '<', '>') == 0 by {
        lemma_balance_zero(after, k, m);
    }
    assert(after[m] == '>');
    assert(balance(after, m, '<', '>') == 0);
    assert(after[m] != '<');
    assert(balance(after, m + 1, '<', '>') == balance(after, m, '<', '>') - 1);
    let w = choose|i: int|
        0 <= i < after.len() && after[i] == '>' && balance(after, i + 1, '<', '>') == -1
            && forall|j: int| 0 <= j <= i ==> balance(after, j, '<', '>') >= 0;
    assert(0 <= m < after.len() && after[m] == '>' && balance(after, m + 1, '<', '>') == -1
        && forall|j: int| 0 <= j <= m ==> balance(after, j, '<', '>') >= 0);
    assert(w == m) by {
        if w < m {
            assert(balance(after, w + 1, '<', '>') == 0);
        } else if w > m {
            assert(balance(after, m + 1, '<', '>') >= 0);
        }
    }
}

/// Digits, a slash, digits: the slash is the first one.
proof fn lemma_slash(tn: Seq<char>, td: Seq<char>)
    requires
        all_digits(tn),
    ensures
        first_index(tn + seq!['/'] + td, '/') == Some(tn.len() as int),
{
    let inner = tn + seq!['/'] + td;
    let p = tn.len() as int;
    assert(inner[p] == '/');
    assert forall|j: int| 0 <= j < p implies inner[j] != '/' by {
        assert(inner[j] == tn[j]);
        assert(is_digit(tn[j]));
    }
    let fp = choose|i: int|
        0 <= i < inner.len() && inner[i] == '/' && forall|j: int| 0 <= j < i ==> inner[j] != '/';
    assert(fp == p) by {
        if fp < p {
            assert(inner[fp] != '/');
        } else if fp > p {
            assert(inner[p] != '/');
        }
    }
}

/// The duration text of `d` followed by `rest` reads as `d` and takes the whole text.
/// How `spec_duration` reads `<n/d>` once the parts are known.
proof fn lemma_duration_eval(s: Seq<char>, inner: Seq<char>, p: int, n: int, d: int)
    requires
        s.len() > 0,
        s[0] == '<',
        spec_matching(s.drop_first(), '<', '>') == Some(inner.len() as int),
        s.drop_first().subrange(0, inner.len() as int) == inner,
        first_index(inner, '/') == Some(p),
        uint_text(inner.subrange(0, p)) == Some(n),
        uint_text(inner.subrange(p + 1, inner.len() as int)) == Some(d),
        0 < d <= i64::MAX,
        0 <= n <= i64::MAX,
    ensures
        spec_duration(s) == Some((frac_of(n, d).unwrap(), inner.len() + 2int)),
{
    reveal(spec_duration);
}

proof fn lemma_no_angle(tn: Seq<char>, td: Seq<char>)
    requires
        all_digits(tn),
        all_digits(td),
    ensures
        forall|j: int|
            0 <= j < (tn + seq!['/'] + td).len() ==> (tn + seq!['/'] + td)[j] != '<' && (tn
                + seq!['/'] + td)[j] != '>',
{
    let inner = tn + seq!['/'] + td;
    assert forall|j: int| 0 <= j < inner.len() implies inner[j] != '<' && inner[j] != '>' by {
        if j < tn.len() {
            assert(inner[j] == tn[j] && is_digit(tn[j]));
        } else if j > tn.len() {
            assert(inner[j] == td[j - tn.len() - 1] && is_digit(td[j - tn.len() - 1]));
        }
    }
}

/// The duration text of `d` followed by `rest` reads as `d` and takes the whole text.
proof fn lemma_duration_prefix(d: Frac, rest: Seq<char>)
    requires
        d.num >= 0,
        d.den > 0,
        frac_of(d.num as int, d.den as int) == Some(d),
    ensures
        spec_duration(duration_text(d) + rest) == Some((d, duration_text(d).len() as int)),
{
    let tn = num_text(d.num as nat);
    let td = num_text(d.den as nat);
    lemma_num_text(d.num as nat);
    lemma_num_text(d.den as nat);
    let s = duration_text(d) + rest;
    let inner = tn + seq!['/'] + td;
    assert(s.drop_first() =~= inner + seq!['>'] + rest);
    lemma_no_angle(tn, td);
    lemma_matching_close(inner, rest);
    assert(s.drop_first().subrange(0, inner.len() as int) =~= inner);
    lemma_slash(tn, td);
    assert(inner.subrange(0, tn.len() as int) =~= tn);
    assert(inner.subrange(tn.len() + 1int, inner.len() as int) =~= td);
    assert(uint_text(tn) == Some(d.num as int));
    assert(uint_text(td) == Some(d.den as int));
    lemma_duration_eval(s, inner, tn.len() as int, d.num as int, d.den as int);
}

proof fn lemma_balance_zero(s: Seq<char>, k: int, m: int)
    requires
        0 <= k <= m <= s.len(),
        forall|j: int| 0 <= j < m ==> s[j] != '<' && s[j] != '>',
    ensures
        balance(s, k, '<', '>') == 0,
    decreases k,
{
    if k > 0 {
        lemma_balance_zero(s, k - 1, m);
    }
}

proof fn lemma_bracket_free_balance(s: Seq<char>, k: int)
    requires
        0 <= k <= s.len(),
        forall|j: int| 0 <= j < s.len() ==> s[j] != '[' && s[j] != ']',
    ensures
        balance(s, k, '[', ']') == 0,
    decreases k,
{
    if k > 0 {
        lemma_bracket_free_balance(s, k - 1);
    }
}

/// Counting brackets over two texts: the first's count carries into the second.
proof fn lemma_balance_concat(a: Seq<char>, b: Seq<char>, k: int)
    requires
        0 <= k <= b.len(),
    ensures
        balance(a + b, a.len() + k, '[', ']') == balance(a, a.len() as int, '[', ']') + balance(
            b,
            k,
            '[',
            ']',
        ),
        forall|m: int| 0 <= m <= a.len() ==> #[trigger] balance(a + b, m, '[', ']') == balance(a, m, '[', ']'),
    decreases k,
{
    if k > 0 {
        lemma_balance_concat(a, b, k - 1);
        assert((a + b)[a.len() + k - 1] == b[k - 1]);
    } else {
        assert forall|m: int| 0 <= m <= a.len() implies #[trigger] balance(a + b, m, '[', ']')
            == balance(a, m, '[', ']') by {
            lemma_balance_prefix(a, b, m);
        }
    }
}

proof fn lemma_balance_prefix(a: Seq<char>, b: Seq<char>, m: int)
    requires
        0 <= m <= a.len(),
    ensures
        balance(a + b, m, '[', ']') == balance(a, m, '[', ']'),
    decreases m,
{
    if m > 0 {
        lemma_balance_prefix(a, b, m - 1);
        assert((a + b)[m - 1] == a[m - 1]);
    }
}

/// The text never closes more brackets than it opened, and closes them all.
pub open spec fn balanced(s: Seq<char>) -> bool {
    &&& forall|k: int| 0 <= k <= s.len() ==> #[trigger] balance(s, k, '[', ']') >= 0
    &&& balance(s, s.len() as int, '[', ']') == 0
}

proof fn lemma_balanced_concat(a: Seq<char>, b: Seq<char>)
    requires
        balanced(a),
        balanced(b),
    ensures
        balanced(a + b),
{
    lemma_balance_concat(a, b, b.len() as int);
    assert forall|k: int| 0 <= k <= (a + b).len() implies #[trigger] balance(a + b, k, '[', ']') >= 0 by {
        if k <= a.len() {
        } else {
            lemma_balance_concat(a, b, k - a.len());
        }
    }
}

proof fn lemma_bracket_free_balanced(s: Seq<char>)
    requires
        forall|j: int| 0 <= j < s.len() ==> s[j] != '[' && s[j] != ']',
    ensures
        balanced(s),
{
    assert forall|k: int| 0 <= k <= s.len() implies #[trigger] balance(s, k, '[', ']') >= 0 by {
        lemma_bracket_free_balance(s, k);
    }
    lemma_bracket_free_balance(s, s.len() as int);
}

/// A balanced text and then `]`: that `]` closes a bracket opened just before the text.
proof fn lemma_matching_balanced(c: Seq<char>, rest: Seq<char>)
    requires
        balanced(c),
    ensures
        spec_matching(c + seq![']'] + rest, '[', ']') == Some(c.len() as int),
{
    reveal(spec_matching);
    let t = c + seq![']'] + rest;
    let m = c.len() as int;
    assert(t =~= c + (seq![']'] + rest));
    lemma_balance_concat(c, seq![']'] + rest, 1);
    assert((seq![']'] + rest)[0] == ']');
    assert(balance(seq![']'] + rest, 0, '[', ']') == 0);
    assert(balance(seq![']'] + rest, 1, '[', ']') == -1);
    assert(t[m] == ']');
    assert forall|j: int| 0 <= j <= m implies balance(t, j, '[', ']') >= 0 by {
        assert(balance(t, j, '[', ']') == balance(c, j, '[', ']'));
    }
    let w = choose|i: int|
        0 <= i < t.len() && t[i] == ']' && balance(t, i + 1, '[', ']') == -1 && forall|j: int|
            0 <= j <= i ==> balance(t, j, '[', ']') >= 0;
    assert(0 <= m < t.len() && t[m] == ']' && balance(t, m + 1, '[', ']') == -1 && forall|j: int|
        0 <= j <= m ==> balance(t, j, '[', ']') >= 0);
    assert(w == m) by {
        if w < m {
            assert(balance(t, w + 1, '[', ']') == balance(c, w + 1, '[', ']'));
        } else if w > m {
            assert(balance(t, m + 1, '[', ']') >= 0);
        }
    }
}

proof fn lemma_name_prefix(name: Seq<char>, rest: Seq<char>)
    requires
        name.len() > 0,
        forall|i: int| 0 <= i < name.len() ==> is_name_char(#[trigger] name[i]),
        rest.len() > 0,
        rest[0] == ' ',
    ensures
        spec_symbol(name + rest) == Some((PrimView::NT(name), name.len() as int)),
{
    let s = name + rest;
    assert(s[0] == name[0]);
    assert(is_name_char(name[0]));
    lemma_name_end(s, 0, name.len() as int);
    assert(s.subrange(0, name.len() as int) =~= name);
}

#[verifier::rlimit(100)]
proof fn lemma_music_prefix(duration: Frac, note: TerminalNote, rest: Seq<char>)
    requires
        note_canonical(note),
        duration.num >= 0,
        duration.den > 0,
        frac_of(duration.num as int, duration.den as int) == Some(duration),
    ensures
        spec_terminal(note_text(note) + duration_text(duration) + rest) == Some(
            (
                Terminal::Music { duration, note },
                (note_text(note) + duration_text(duration)).len() as int,
            ),
        ),
{
    let u = note_text(note) + duration_text(duration) + rest;
    let dt = duration_text(duration) + rest;
    assert(u =~= note_text(note) + dt);
    assert(dt[0] == '<');
    lemma_note_prefix(note, dt);
    assert(u[0] == note_text(note)[0]);
    let a = note_text(note).len() as int;
    assert(u.subrange(a, u.len() as int) =~= dt);
    lemma_duration_prefix(duration, rest);
}

proof fn lemma_volume_prefix(v: Volume, rest: Seq<char>)
    requires
        v.0 <= 100,
        rest.len() > 0,
        rest[0] == ' ',
    ensures
        spec_meta(seq!['v', '='] + num_text(v.0 as nat) + rest) == Some(
            (MetaControl::ChangeVolume(v), num_text(v.0 as nat).len() + 2int),
        ),
{
    let tv = num_text(v.0 as nat);
    lemma_num_text(v.0 as nat);
    let w = seq!['v', '='] + tv + rest;
    let x = w.subrange(2, w.len() as int);
    assert(x =~= tv + rest);
    assert(x[tv.len() as int] == ' ');
    assert forall|j: int| 0 <= j < tv.len() implies is_digit(#[trigger] x[j]) by {
        assert(x[j] == tv[j]);
    }
    lemma_digit_end(x, 0, tv.len() as int);
    assert(x.subrange(0, tv.len() as int) =~= tv);
}

#[verifier::rlimit(100)]
proof fn lemma_symbol_music(duration: Frac, note: TerminalNote, rest: Seq<char>)
    requires
        note_canonical(note),
        duration.num >= 0,
        duration.den > 0,
        frac_of(duration.num as int, duration.den as int) == Some(duration),
        rest.len() > 0,
        rest[0] == ' ',
    ensures
        ({
            let p = PrimView::T(Terminal::Music { duration, note });
            spec_symbol(prim_text(p) + rest) == Some((p, prim_text(p).len() as int))
        }),
{
    let p = PrimView::T(Terminal::Music { duration, note });
    let s = prim_text(p) + rest;
    let u = note_text(note) + duration_text(duration) + rest;
    lemma_music_prefix(duration, note, rest);
    assert(s.drop_first() =~= u);
    assert(s[0] == ':');
}

#[verifier::rlimit(100)]
proof fn lemma_symbol_volume(v: Volume, rest: Seq<char>)
    requires
        v.0 <= 100,
        rest.len() > 0,
        rest[0] == ' ',
    ensures
        ({
            let p = PrimView::T(Terminal::Meta(MetaControl::ChangeVolume(v)));
            spec_symbol(prim_text(p) + rest) == Some((p, prim_text(p).len() as int))
        }),
{
    let p = PrimView::T(Terminal::Meta(MetaControl::ChangeVolume(v)));
    let s = prim_text(p) + rest;
    lemma_volume_prefix(v, rest);
    lemma_num_text(v.0 as nat);
    let u = s.drop_first();
    assert(u.drop_first() =~= seq!['v', '='] + num_text(v.0 as nat) + rest);
    assert(u[0] == ':');
    assert(s[0] == ':');
}

/// A canonical primitive's text, then a space and anything, reads as the primitive and
/// takes exactly its text.
proof fn lemma_symbol_prefix(p: PrimView, rest: Seq<char>)
    requires
        prim_canonical(p),
        !(p is Transform),
        rest.len() > 0,
        rest[0] == ' ',
    ensures
        spec_symbol(prim_text(p) + rest) == Some((p, prim_text(p).len() as int)),
        prim_text(p).len() > 0,
        !is_ws((prim_text(p) + rest)[0]),
        (prim_text(p) + rest)[0] != '{' && (prim_text(p) + rest)[0] != '[',
{
    let s = prim_text(p) + rest;
    match p {
        PrimView::NT(name) => {
            lemma_name_prefix(name, rest);
            assert(s[0] == name[0]);
        },
        PrimView::T(Terminal::Music { duration, note }) => {
            lemma_symbol_music(duration, note, rest);
            assert(s[0] == ':');
        },
        PrimView::T(Terminal::Meta(MetaControl::ChangeVolume(v))) => {
            lemma_symbol_volume(v, rest);
            assert(s[0] == ':');
        },
        _ => {},
    }
}

proof fn lemma_int_text_neg(t: Seq<char>, v: nat)
    requires
        t.len() > 0,
        all_digits(t),
        digits_value(t) == v,
        v <= i64::MAX,
    ensures
        crate::scan::int_text(seq!['-'] + t) == Some(-(v as int)),
        crate::scan::int_text(t) == Some(v as int),
{
    assert((seq!['-'] + t).drop_first() =~= t);
    assert(is_digit(t[0]));
}

#[verifier::rlimit(100)]
proof fn lemma_repeat_round_trip(num: usize)
    requires
        num > 0,
        num <= u64::MAX,
    ensures
        crate::scan::spec_transform(transform_text(MusicTransform::Repeat { num })) == Some(
            MusicTransform::Repeat { num },
        ),
        forall|j: int|
            0 <= j < transform_text(MusicTransform::Repeat { num }).len() ==> #[trigger] transform_text(
                MusicTransform::Repeat { num },
            )[j] != '[' && transform_text(MusicTransform::Repeat { num })[j] != ']',
{
    reveal(crate::scan::spec_transform);
    let tt = transform_text(MusicTransform::Repeat { num });
    lemma_num_text(num as nat);
    assert(tt.drop_first() =~= num_text(num as nat));
    assert forall|j: int| 0 <= j < tt.len() implies #[trigger] tt[j] != '[' && tt[j] != ']' by {
        if j > 0 {
            assert(tt[j] == num_text(num as nat)[j - 1]);
            assert(is_digit(num_text(num as nat)[j - 1]));
        }
    }
}

#[verifier::rlimit(100)]
proof fn lemma_transpose_round_trip(semitones: i64)
    requires
        semitones > i64::MIN,
    ensures
        crate::scan::spec_transform(transform_text(MusicTransform::Transpose { semitones }))
            == Some(MusicTransform::Transpose { semitones }),
        forall|j: int|
            0 <= j < transform_text(MusicTransform::Transpose { semitones }).len()
                ==> #[trigger] transform_text(MusicTransform::Transpose { semitones })[j] != '['
                && transform_text(MusicTransform::Transpose { semitones })[j] != ']',
{
    reveal(crate::scan::spec_transform);
    let tt = transform_text(MusicTransform::Transpose { semitones });
    if semitones >= 0 {
        lemma_num_text(semitones as nat);
        assert(tt.drop_first() =~= num_text(semitones as nat));
        lemma_int_text_neg(num_text(semitones as nat), semitones as nat);
        assert(is_digit(num_text(semitones as nat)[0]));
        assert forall|j: int| 0 <= j < tt.len() implies #[trigger] tt[j] != '[' && tt[j] != ']' by {
            if j > 0 {
                assert(tt[j] == num_text(semitones as nat)[j - 1]);
                assert(is_digit(num_text(semitones as nat)[j - 1]));
            }
        }
    } else {
        let u = num_text((-semitones) as nat);
        lemma_num_text((-semitones) as nat);
        assert(tt.drop_first() =~= seq!['-'] + u);
        lemma_int_text_neg(u, (-semitones) as nat);
        assert forall|j: int| 0 <= j < tt.len() implies #[trigger] tt[j] != '[' && tt[j] != ']' by {
            if j > 1 {
                assert(tt[j] == u[j - 2]);
                assert(is_digit(u[j - 2]));
            }
        }
    }
}

#[verifier::rlimit(100)]
proof fn lemma_compression_round_trip(factor: Frac)
    requires
        transform_canonical(MusicTransform::Compression { factor }),
    ensures
        crate::scan::spec_transform(transform_text(MusicTransform::Compression { factor }))
            == Some(MusicTransform::Compression { factor }),
        forall|j: int|
            0 <= j < transform_text(MusicTransform::Compression { factor }).len()
                ==> #[trigger] transform_text(MusicTransform::Compression { factor })[j] != '['
                && transform_text(MusicTransform::Compression { factor })[j] != ']',
{
    reveal(crate::scan::spec_fraction);
    reveal(crate::scan::spec_transform);
    let tt = transform_text(MusicTransform::Compression { factor });
    let tn = num_text(factor.den as nat);
    let td = num_text(factor.num as nat);
    lemma_num_text(factor.den as nat);
    lemma_num_text(factor.num as nat);
    let body = tt.subrange(2, tt.len() as int);
    assert(body =~= tn + seq!['/'] + td);
    lemma_slash(tn, td);
    assert(body.subrange(0, tn.len() as int) =~= tn);
    assert(body.subrange(tn.len() + 1int, body.len() as int) =~= td);
    lemma_int_text_neg(tn, factor.den as nat);
    lemma_int_text_neg(td, factor.num as nat);
    assert(crate::scan::spec_fraction(body) == Some(Frac { num: factor.den, den: factor.num }));
    assert forall|j: int| 0 <= j < tt.len() implies #[trigger] tt[j] != '[' && tt[j] != ']' by {
        if j >= 2 {
            let k = j - 2;
            assert(tt[j] == body[k]);
            if k < tn.len() {
                assert(body[k] == tn[k] && is_digit(tn[k]));
            } else if k > tn.len() {
                assert(body[k] == td[k - tn.len() - 1] && is_digit(td[k - tn.len() - 1]));
            }
        }
    }
}

/// The text of a canonical transform reads back as the transform.
proof fn lemma_transform_round_trip(t: MusicTransform)
    requires
        transform_canonical(t),
    ensures
        crate::scan::spec_transform(transform_text(t)) == Some(t),
        forall|j: int| 0 <= j < transform_text(t).len() ==> #[trigger] transform_text(t)[j] != '['
            && transform_text(t)[j] != ']',
{
    match t {
        MusicTransform::Repeat { num } => lemma_repeat_round_trip(num),
        MusicTransform::Transpose { semitones } => lemma_transpose_round_trip(semitones),
        MusicTransform::Compression { factor } => lemma_compression_round_trip(factor),
    }
}

/// Canonical texts open and close their brackets in order.
proof fn lemma_prim_balanced(p: PrimView)
    requires
        prim_canonical(p),
    ensures
        balanced(prim_text(p)),
    decreases p,
{
    match p {
        PrimView::Transform(t, c) => {
            lemma_transform_round_trip(t);
            lemma_flat_balanced(c);
            let tt = transform_text(t);
            let open = seq!['['];
            lemma_bracket_free_balanced(tt);
            let mid = seq![']', '['];
            // `[` tt `]` is balanced, and so is `[` flat `]`
            let first = open + tt + seq![']'];
            let second = open + flat_text(c) + seq![']'];
            lemma_wrap_balanced(tt);
            lemma_wrap_balanced(flat_text(c));
            lemma_balanced_concat(first, second);
            assert(prim_text(p) =~= first + second);
        },
        PrimView::NT(name) => {
            assert forall|j: int| 0 <= j < name.len() implies name[j] != '[' && name[j] != ']' by {
                assert(is_name_char(name[j]));
            }
            lemma_bracket_free_balanced(name);
        },
        _ => {
            lemma_simple_bracket_free(p);
            lemma_bracket_free_balanced(prim_text(p));
        },
    }
}

proof fn lemma_simple_bracket_free(p: PrimView)
    requires
        prim_canonical(p),
        !(p is Transform),
        !(p is NT),
    ensures
        forall|j: int| 0 <= j < prim_text(p).len() ==> prim_text(p)[j] != '[' && prim_text(p)[j]
            != ']',
{
    match p {
        PrimView::T(Terminal::Music { duration, note }) => {
            let tn = num_text(duration.num as nat);
            let td = num_text(duration.den as nat);
            lemma_num_text(duration.num as nat);
            lemma_num_text(duration.den as nat);
            let nt = note_text(note);
            let text = prim_text(p);
            assert(text =~= seq![':'] + nt + (seq!['<'] + tn + seq!['/'] + td + seq!['>']));
            assert forall|j: int| 0 <= j < text.len() implies text[j] != '[' && text[j] != ']' by {
                let a = 1 + nt.len();
                if j == 0 {
                } else if j < a {
                    assert(text[j] == nt[j - 1]);
                } else if j == a {
                } else if j < a + 1 + tn.len() {
                    assert(text[j] == tn[j - a - 1] && is_digit(tn[j - a - 1]));
                } else if j == a + 1 + tn.len() {
                } else if j < a + 2 + tn.len() + td.len() {
                    assert(text[j] == td[j - a - 2 - tn.len()] && is_digit(td[j - a - 2 - tn.len()]));
                }
            }
        },
        PrimView::T(Terminal::Meta(MetaControl::ChangeVolume(v))) => {
            let tv = num_text(v.0 as nat);
            lemma_num_text(v.0 as nat);
            let text = prim_text(p);
            assert forall|j: int| 0 <= j < text.len() implies text[j] != '[' && text[j] != ']' by {
                if j >= 4 {
                    assert(text[j] == tv[j - 4] && is_digit(tv[j - 4]));
                }
            }
        },
        _ => {},
    }
}

proof fn lemma_wrap_balanced(c: Seq<char>)
    requires
        balanced(c),
    ensures
        balanced(seq!['['] + c + seq![']']),
{
    let t = seq!['['] + c + seq![']'];
    let open = seq!['['];
    assert(balance(open, 0, '[', ']') == 0);
    assert(balance(open, 1, '[', ']') == 1);
    let oc = open + c;
    assert forall|k: int| 0 <= k <= c.len() implies #[trigger] balance(oc, 1 + k, '[', ']') == 1
        + balance(c, k, '[', ']') by {
        lemma_balance_concat(open, c, k);
    }
    lemma_balance_concat(oc, seq![']'], 1);
    assert(balance(seq![']'], 0, '[', ']') == 0);
    assert(balance(seq![']'], 1, '[', ']') == -1);
    assert(balance(oc, oc.len() as int, '[', ']') == 1 + balance(c, c.len() as int, '[', ']'));
    assert forall|k: int| 0 <= k <= t.len() implies #[trigger] balance(t, k, '[', ']') >= 0 by {
        if k == 0 {
        } else if k <= oc.len() {
            assert(balance(t, k, '[', ']') == balance(oc, k, '[', ']'));
            assert(balance(oc, 1 + (k - 1), '[', ']') == 1 + balance(c, k - 1, '[', ']'));
        }
    }
}

proof fn lemma_flat_balanced(ps: Seq<PrimView>)
    requires
        forall|i: int| 0 <= i < ps.len() ==> prim_canonical(#[trigger] ps[i]),
    ensures
        balanced(flat_text(ps)),
    decreases ps,
{
    if ps.len() == 0 {
        assert(balance(flat_text(ps), 0, '[', ']') == 0);
    } else {
        let tail = ps.drop_first();
        assert forall|i: int| 0 <= i < tail.len() implies prim_canonical(#[trigger] tail[i]) by {
            assert(tail[i] == ps[i + 1]);
        }
        lemma_prim_balanced(ps[0]);
        lemma_flat_balanced(tail);
        lemma_bracket_free_balanced(seq![' ']);
        lemma_balanced_concat(prim_text(ps[0]), seq![' ']);
        lemma_balanced_concat(prim_text(ps[0]) + seq![' '], flat_text(tail));
    }
}

/// The first `]` of a bracket-free text wrapped as `[text]`.
proof fn lemma_first_close(s: Seq<char>, tt: Seq<char>)
    requires
        s.len() > tt.len() + 1,
        s[0] == '[',
        s[tt.len() + 1int] == ']',
        forall|j: int| 0 <= j < tt.len() ==> s[j + 1] == tt[j],
        forall|j: int| 0 <= j < tt.len() ==> #[trigger] tt[j] != ']',
    ensures
        first_index(s, ']') == Some(tt.len() + 1int),
{
    let close = tt.len() + 1int;
    assert forall|j: int| 0 <= j < close implies s[j] != ']' by {
        if j > 0 {
            assert(s[j] == tt[j - 1]);
        }
    }
    let fi = choose|i: int| 0 <= i < s.len() && s[i] == ']' && forall|j: int| 0 <= j < i ==> s[j] != ']';
    assert(0 <= close < s.len() && s[close] == ']' && forall|j: int| 0 <= j < close ==> s[j] != ']');
    assert(fi == close) by {
        if fi < close {
            assert(s[fi] != ']');
        } else if fi > close {
            assert(s[close] != ']');
        }
    }
}

proof fn lemma_parse_bracket_eval(
    s: Seq<char>,
    close: int,
    end: int,
    cv: Seq<PrimView>,
    tr: MusicTransform,
)
    requires
        s.len() > 0,
        s[0] == '[',
        first_index(s, ']') == Some(close),
        1 <= close,
        close + 1 < s.len(),
        s[close + 1] == '[',
        spec_matching(s.subrange(close + 2, s.len() as int), '[', ']') == Some(end),
        0 <= end < s.len() - close - 2,
        parse_string(s.subrange(close + 2, s.len() as int).subrange(0, end)) == Some(cv),
        crate::scan::spec_transform(s.subrange(1, close)) == Some(tr),
    ensures
        crate::scan::parse_bracket(s) == Some((PrimView::Transform(tr, cv), close + 2 + end + 1)),
{
}

#[verifier::rlimit(100)]
proof fn lemma_wrap_layout(tt: Seq<char>, fc: Seq<char>, rest: Seq<char>)
    requires
        forall|j: int| 0 <= j < tt.len() ==> #[trigger] tt[j] != '[' && tt[j] != ']',
    ensures
        ({
            let s = seq!['['] + tt + seq![']', '['] + fc + seq![']'] + rest;
            let close = 1 + tt.len() as int;
            &&& s.len() > 0
            &&& s[0] == '['
            &&& first_index(s, ']') == Some(close)
            &&& close + 1 < s.len()
            &&& s[close + 1] == '['
            &&& s.subrange(1, close) == tt
            &&& s.subrange(close + 2, s.len() as int) == fc + seq![']'] + rest
        }),
{
    let s = seq!['['] + tt + seq![']', '['] + fc + seq![']'] + rest;
    let close = 1 + tt.len() as int;
    let head = seq!['['] + tt;
    assert(s =~= head + (seq![']', '['] + (fc + (seq![']'] + rest))));
    assert(s[0] == '[');
    assert(s[close] == ']');
    assert(s[close + 1] == '[');
    assert forall|j: int| 0 <= j < tt.len() implies s[j + 1] == tt[j] by {
        assert(s[j + 1] == head[j + 1]);
    }
    lemma_first_close(s, tt);
    assert(s.subrange(close + 2, s.len() as int) =~= fc + seq![']'] + rest);
    assert(s.subrange(1, close) =~= tt);
}

#[verifier::rlimit(100)]
proof fn lemma_transform_prefix(t: MusicTransform, c: Seq<PrimView>, rest: Seq<char>)
    requires
        transform_canonical(t),
        forall|i: int| 0 <= i < c.len() ==> prim_canonical(#[trigger] c[i]),
    ensures
        crate::scan::parse_bracket(wrap_text(t, c) + rest) == Some(
            (PrimView::Transform(t, c), wrap_text(t, c).len() as int),
        ),
    decreases c, 2int,
{
    let tt = transform_text(t);
    let fc = flat_text(c);
    let s = wrap_text(t, c) + rest;
    lemma_transform_round_trip(t);
    lemma_wrap_layout(tt, fc, rest);
    let close = 1 + tt.len() as int;
    let after = s.subrange(close + 2, s.len() as int);
    lemma_flat_balanced(c);
    lemma_matching_balanced(fc, rest);
    flat_round_trip(c);
    assert(after.subrange(0, fc.len() as int) =~= fc);
    lemma_parse_bracket_eval(s, close, fc.len() as int, c, t);
}

/// The text of a transform primitive.
pub open spec fn wrap_text(t: MusicTransform, c: Seq<PrimView>) -> Seq<char> {
    seq!['['] + transform_text(t) + seq![']', '['] + flat_text(c) + seq![']']
}

/// A canonical primitive's text, then a space and anything, reads as the primitive and
/// takes exactly its text.
#[verifier::rlimit(100)]
proof fn lemma_prim_prefix(p: PrimView, rest: Seq<char>)
    requires
        prim_canonical(p),
        rest.len() > 0,
        rest[0] == ' ',
    ensures
        parse_prim(prim_text(p) + rest) == Some((p, prim_text(p).len() as int)),
        prim_text(p).len() > 0,
        !is_ws((prim_text(p) + rest)[0]),
    decreases p, 0int,
{
    let s = prim_text(p) + rest;
    match p {
        PrimView::Transform(t, c) => {
            assert forall|i: int| 0 <= i < c.len() implies prim_canonical(#[trigger] c[i]) by {}
            lemma_transform_prefix(t, c, rest);
            assert(prim_text(p) == wrap_text(t, c));
            assert(s[0] == '[');
        },
        _ => {
            lemma_symbol_prefix(p, rest);
        },
    }
}

/// Reading the canonical text of names, notes, volume changes and transforms of such music
/// gives them back.
#[verifier::rlimit(100)]
pub proof fn flat_round_trip(ps: Seq<PrimView>)
    requires
        forall|i: int| 0 <= i < ps.len() ==> prim_canonical(#[trigger] ps[i]),
    ensures
        parse_string(flat_text(ps)) == Some(ps),
    decreases ps, 1int,
{
    let s = flat_text(ps);
    if ps.len() == 0 {
        assert(ws_end(s, 0) == 0);
        assert(Seq::<PrimView>::empty() =~= ps);
    } else {
        let p = ps[0];
        let tail = ps.drop_first();
        assert forall|i: int| 0 <= i < tail.len() implies prim_canonical(#[trigger] tail[i]) by {
            assert(tail[i] == ps[i + 1]);
        }
        flat_round_trip(tail);
        let rest = seq![' '] + flat_text(tail);
        assert(s =~= prim_text(p) + rest);
        lemma_prim_prefix(p, rest);
        let k = prim_text(p).len() as int;
        assert(ws_end(s, 0) == 0);
        assert(s.subrange(0, s.len() as int) =~= s);
        let a = prim_text(p) + seq![' '];
        assert(s =~= a + flat_text(tail));
        assert(s[k] == ' ');
        lemma_parse_from_ws(s, k);
        lemma_parse_from_shift(a, flat_text(tail), 0);
        assert(parse_from(s, k + 1) == parse_from(flat_text(tail), 0));
        assert(seq![p] + tail =~= ps);
    }
}

} // verus!
