//! Scanners as values: one per part of the text format, and combinators that build
//! scanners out of others.
use crate::cfg::{
    Grammar, MetaControl, MusicPrimitive, MusicString, MusicTransform, Production, Symbol,
    Terminal, TerminalNote,
};
use crate::composition::{Instrument, Volume};
use crate::frac::Frac;
use crate::grammar::{name_of, productions_view, view_prim, view_prims};
use crate::scan::{
    is_ws, name_end, parse_bracket, parse_prim, parse_split, parse_string, scan_bracketed,
    scan_duration, scan_fraction, scan_grammar, scan_instrument, scan_meta, scan_music_string,
    scan_name, scan_note, scan_primitive, scan_production, scan_split, scan_symbol, scan_terminal,
    scan_transform, scan_volume, spec_duration, spec_fraction, spec_grammar, spec_instrument,
    spec_meta, spec_note, spec_production, spec_symbol, spec_terminal, spec_transform, spec_volume,
    trim_back, trimmed, ws_end, ScanError,
};
use crate::time::MusicTime;
use vstd::prelude::*;
use vstd::slice::slice_subrange;

verus! {

/// Reads a value from the start of a text and tells how many characters it used.
///
/// `accepts(input, out, n)` says that reading `input` may give `out` after `n` characters;
/// `refuses(input)` says that reading `input` may fail.
pub trait Scanner {
    type Output;

    spec fn accepts(&self, input: Seq<char>, out: Self::Output, n: int) -> bool;

    spec fn refuses(&self, input: Seq<char>) -> bool;

    fn scan(&self, input: &[char]) -> (r: Result<(Self::Output, usize), ScanError>)
        ensures
            r is Ok ==> r->Ok_0.1 <= input@.len() && self.accepts(
                input@,
                r->Ok_0.0,
                r->Ok_0.1 as int,
            ),
            r is Err ==> self.refuses(input@),
    ;
}

pub struct GrammarScanner;

pub struct ProductionScanner;

pub struct MusicStringScanner;

pub struct MusicPrimitiveScanner;

pub struct MusicPrimitiveSplitScanner;

pub struct MusicPrimitiveRepeatScanner;

pub struct MusicTransformScanner;

pub struct SymbolScanner;

pub struct NonTerminalScanner;

pub struct TerminalScanner;

pub struct NoteScanner;

pub struct DurationScanner;

pub struct FractionScanner;

pub struct MetaControlScanner;

pub struct InstrumentScanner;

pub struct VolumeScanner;

impl Scanner for GrammarScanner {
    type Output = Grammar;

    open spec fn accepts(&self, input: Seq<char>, out: Grammar, n: int) -> bool {
        spec_grammar(input) == Some((name_of(out.start), productions_view(out))) && n
            == input.len()
    }

    open spec fn refuses(&self, input: Seq<char>) -> bool {
        spec_grammar(input) is None
    }

    fn scan(&self, input: &[char]) -> (r: Result<(Grammar, usize), ScanError>) {
        scan_grammar(input)
    }
}

impl Scanner for ProductionScanner {
    type Output = Production;

    open spec fn accepts(&self, input: Seq<char>, out: Production, n: int) -> bool {
        spec_production(input) == Some((name_of(out.0), view_prims(out.1.0@))) && n == input.len()
    }

    open spec fn refuses(&self, input: Seq<char>) -> bool {
        spec_production(input) is None
    }

    fn scan(&self, input: &[char]) -> (r: Result<(Production, usize), ScanError>) {
        scan_production(input)
    }
}

impl Scanner for MusicStringScanner {
    type Output = MusicString;

    open spec fn accepts(&self, input: Seq<char>, out: MusicString, n: int) -> bool {
        parse_string(input) == Some(view_prims(out.0@)) && n == input.len()
    }

    open spec fn refuses(&self, input: Seq<char>) -> bool {
        parse_string(input) is None
    }

    fn scan(&self, input: &[char]) -> (r: Result<(MusicString, usize), ScanError>) {
        scan_music_string(input)
    }
}

impl Scanner for MusicPrimitiveScanner {
    type Output = MusicPrimitive;

    open spec fn accepts(&self, input: Seq<char>, out: MusicPrimitive, n: int) -> bool {
        parse_prim(input) == Some((view_prim(out), n))
    }

    open spec fn refuses(&self, input: Seq<char>) -> bool {
        parse_prim(input) is None
    }

    fn scan(&self, input: &[char]) -> (r: Result<(MusicPrimitive, usize), ScanError>) {
        scan_primitive(input)
    }
}

impl Scanner for MusicPrimitiveSplitScanner {
    type Output = MusicPrimitive;

    open spec fn accepts(&self, input: Seq<char>, out: MusicPrimitive, n: int) -> bool {
        parse_split(input) == Some((view_prim(out), n))
    }

    open spec fn refuses(&self, input: Seq<char>) -> bool {
        parse_split(input) is None
    }

    fn scan(&self, input: &[char]) -> (r: Result<(MusicPrimitive, usize), ScanError>) {
        scan_split(input)
    }
}

impl Scanner for MusicPrimitiveRepeatScanner {
    type Output = MusicPrimitive;

    open spec fn accepts(&self, input: Seq<char>, out: MusicPrimitive, n: int) -> bool {
        parse_bracket(input) == Some((view_prim(out), n))
    }

    open spec fn refuses(&self, input: Seq<char>) -> bool {
        parse_bracket(input) is None
    }

    fn scan(&self, input: &[char]) -> (r: Result<(MusicPrimitive, usize), ScanError>) {
        scan_bracketed(input)
    }
}

impl Scanner for MusicTransformScanner {
    type Output = MusicTransform;

    open spec fn accepts(&self, input: Seq<char>, out: MusicTransform, n: int) -> bool {
        spec_transform(input) == Some(out) && n == input.len()
    }

    open spec fn refuses(&self, input: Seq<char>) -> bool {
        spec_transform(input) is None
    }

    fn scan(&self, input: &[char]) -> (r: Result<(MusicTransform, usize), ScanError>) {
        match scan_transform(input) {
            Ok(t) => Ok((t, input.len())),
            Err(e) => Err(e),
        }
    }
}

impl Scanner for SymbolScanner {
    type Output = Symbol;

    open spec fn accepts(&self, input: Seq<char>, out: Symbol, n: int) -> bool {
        spec_symbol(input) == Some((view_prim(MusicPrimitive::Simple(out)), n))
    }

    open spec fn refuses(&self, input: Seq<char>) -> bool {
        spec_symbol(input) is None
    }

    fn scan(&self, input: &[char]) -> (r: Result<(Symbol, usize), ScanError>) {
        scan_symbol(input)
    }
}

impl Scanner for NonTerminalScanner {
    type Output = String;

    open spec fn accepts(&self, input: Seq<char>, out: String, n: int) -> bool {
        n == name_end(input, 0) && n > 0 && out@ == input.subrange(0, n)
    }

    open spec fn refuses(&self, input: Seq<char>) -> bool {
        name_end(input, 0) == 0
    }

    fn scan(&self, input: &[char]) -> (r: Result<(String, usize), ScanError>) {
        scan_name(input)
    }
}

impl Scanner for TerminalScanner {
    type Output = Terminal;

    open spec fn accepts(&self, input: Seq<char>, out: Terminal, n: int) -> bool {
        spec_terminal(input) == Some((out, n))
    }

    open spec fn refuses(&self, input: Seq<char>) -> bool {
        spec_terminal(input) is None
    }

    fn scan(&self, input: &[char]) -> (r: Result<(Terminal, usize), ScanError>) {
        scan_terminal(input)
    }
}

impl Scanner for NoteScanner {
    type Output = TerminalNote;

    open spec fn accepts(&self, input: Seq<char>, out: TerminalNote, n: int) -> bool {
        spec_note(input) == Some((out, n))
    }

    open spec fn refuses(&self, input: Seq<char>) -> bool {
        spec_note(input) is None
    }

    fn scan(&self, input: &[char]) -> (r: Result<(TerminalNote, usize), ScanError>) {
        scan_note(input)
    }
}

impl Scanner for DurationScanner {
    type Output = MusicTime;

    open spec fn accepts(&self, input: Seq<char>, out: MusicTime, n: int) -> bool {
        spec_duration(input) == Some((out, n))
    }

    open spec fn refuses(&self, input: Seq<char>) -> bool {
        spec_duration(input) is None
    }

    fn scan(&self, input: &[char]) -> (r: Result<(MusicTime, usize), ScanError>) {
        scan_duration(input)
    }
}

impl Scanner for FractionScanner {
    type Output = Frac;

    open spec fn accepts(&self, input: Seq<char>, out: Frac, n: int) -> bool {
        spec_fraction(input) == Some(out) && n == input.len()
    }

    open spec fn refuses(&self, input: Seq<char>) -> bool {
        spec_fraction(input) is None
    }

    fn scan(&self, input: &[char]) -> (r: Result<(Frac, usize), ScanError>) {
        match scan_fraction(input) {
            Ok(f) => Ok((f, input.len())),
            Err(e) => Err(e),
        }
    }
}

impl Scanner for MetaControlScanner {
    type Output = MetaControl;

    open spec fn accepts(&self, input: Seq<char>, out: MetaControl, n: int) -> bool {
        spec_meta(input) == Some((out, n))
    }

    open spec fn refuses(&self, input: Seq<char>) -> bool {
        spec_meta(input) is None
    }

    fn scan(&self, input: &[char]) -> (r: Result<(MetaControl, usize), ScanError>) {
        scan_meta(input)
    }
}

impl Scanner for InstrumentScanner {
    type Output = Instrument;

    open spec fn accepts(&self, input: Seq<char>, out: Instrument, n: int) -> bool {
        spec_instrument(input) == Some((out, n))
    }

    open spec fn refuses(&self, input: Seq<char>) -> bool {
        spec_instrument(input) is None
    }

    fn scan(&self, input: &[char]) -> (r: Result<(Instrument, usize), ScanError>) {
        scan_instrument(input)
    }
}

impl Scanner for VolumeScanner {
    type Output = Volume;

    open spec fn accepts(&self, input: Seq<char>, out: Volume, n: int) -> bool {
        spec_volume(input) == Some((out, n))
    }

    open spec fn refuses(&self, input: Seq<char>) -> bool {
        spec_volume(input) is None
    }

    fn scan(&self, input: &[char]) -> (r: Result<(Volume, usize), ScanError>) {
        scan_volume(input)
    }
}

/// `input` begins with `prefix`.
pub open spec fn begins_with(input: Seq<char>, prefix: Seq<char>) -> bool {
    prefix.len() <= input.len() && input.subrange(0, prefix.len() as int) == prefix
}

/// `input` begins with the characters of `prefix`.
pub fn starts_with(input: &[char], prefix: &String) -> (r: bool)
    ensures
        r == begins_with(input@, prefix@),
{
    let p = prefix.as_str();
    let n = p.unicode_len();
    if n > input.len() {
        return false;
    }
    let mut i: usize = 0;
    while i < n
        invariant
            n == prefix@.len(),
            p@ == prefix@,
            n <= input@.len(),
            i <= n,
            forall|j: int| 0 <= j < i ==> input@[j] == prefix@[j],
        decreases n - i,
    {
        if input[i] != p.get_char(i) {
            assert(input@.subrange(0, n as int)[i as int] != prefix@[i as int]);
            return false;
        }
        i += 1;
    }
    assert(input@.subrange(0, n as int) =~= prefix@);
    true
}

/// Reads exactly the given string.
pub struct StringScanner(pub String);

impl Scanner for StringScanner {
    type Output = String;

    open spec fn accepts(&self, input: Seq<char>, out: String, n: int) -> bool {
        begins_with(input, self.0@) && out@ == self.0@ && n == self.0@.len()
    }

    open spec fn refuses(&self, input: Seq<char>) -> bool {
        !begins_with(input, self.0@)
    }

    fn scan(&self, input: &[char]) -> (r: Result<(String, usize), ScanError>) {
        if starts_with(input, &self.0) {
            Ok((self.0.clone(), self.0.as_str().unicode_len()))
        } else {
            Err(ScanError::Generic("expected a fixed string".to_owned()))
        }
    }
}

/// Reads at least one character of white space, and all that follow.
pub struct SpaceScanner;

impl Scanner for SpaceScanner {
    type Output = ();

    open spec fn accepts(&self, input: Seq<char>, out: (), n: int) -> bool {
        n == ws_end(input, 0) && n > 0
    }

    open spec fn refuses(&self, input: Seq<char>) -> bool {
        !(input.len() > 0 && is_ws(input[0]))
    }

    fn scan(&self, input: &[char]) -> (r: Result<((), usize), ScanError>) {
        let mut k: usize = 0;
        while k < input.len() && (input[k] == ' ' || input[k] == '\t' || input[k] == '\n'
            || input[k] == '\r')
            invariant
                k <= input@.len(),
                ws_end(input@, 0) == ws_end(input@, k as int),
            decreases input@.len() - k,
        {
            k += 1;
        }
        if k == 0 {
            Err(ScanError::Generic("expected white space".to_owned()))
        } else {
            Ok(((), k))
        }
    }
}

/// The first scanner, then the second on what the first left.
pub struct ConcatScan<S, T>(pub S, pub T);

/// The first scanner where the input begins with its prefix; otherwise the second, where
/// it has no prefix or the input begins with it.
pub struct DisjointScan<S, T> {
    pub scanner_a: (String, S),
    pub scanner_b: (Option<String>, T),
}

/// The scanner as many times as it reads something.
pub struct KleeneScan<S>(pub S);

/// The scanner, which must use the whole input.
pub struct ConsumeScanner<S>(pub S);

/// How a scanner's input is narrowed before the scanner sees it.
#[derive(Clone, Copy, Debug, PartialEq, Eq, Structural)]
pub enum InputMap {
    /// Leave out white space at both ends.
    Trim,
    /// Leave out the first character.
    SkipFirst,
}

/// The scanner on a narrowed input.
pub struct MapInputScanner<S> {
    pub scanner: S,
    pub mapper: InputMap,
}

impl<S: Scanner, T: Scanner> Scanner for ConcatScan<S, T> {
    type Output = (S::Output, T::Output);

    /// The first scanner reads `u` with `m` characters, the second reads `v` from there.
    open spec fn accepts(&self, input: Seq<char>, out: (S::Output, T::Output), n: int) -> bool {
        exists|m: int|
            0 <= m <= n && m <= input.len() && #[trigger] self.0.accepts(input, out.0, m)
                && self.1.accepts(input.subrange(m, input.len() as int), out.1, n - m)
    }

    open spec fn refuses(&self, input: Seq<char>) -> bool {
        self.0.refuses(input) || exists|u: S::Output, m: int|
            0 <= m <= input.len() && #[trigger] self.0.accepts(input, u, m) && self.1.refuses(
                input.subrange(m, input.len() as int),
            )
    }

    fn scan(&self, input: &[char]) -> (r: Result<((S::Output, T::Output), usize), ScanError>) {
        match self.0.scan(input) {
            Ok((u, n)) => {
                let rest = slice_subrange(input, n, input.len());
                match self.1.scan(rest) {
                    Ok((v, m)) => {
                        let r = ((u, v), n + m);
                        assert(self.0.accepts(input@, r.0.0, n as int));
                        Ok(r)
                    },
                    Err(e) => {
                        assert(self.0.accepts(input@, u, n as int));
                        Err(e)
                    },
                }
            },
            Err(e) => Err(e),
        }
    }
}

/// Which scanner a disjoint scan hands the input to.
pub enum Branch {
    First,
    Second,
    Neither,
}

pub open spec fn spec_branch(input: Seq<char>, a: Seq<char>, b: Option<Seq<char>>) -> Branch {
    if begins_with(input, a) {
        Branch::First
    } else {
        match b {
            None => Branch::Second,
            Some(p) => if begins_with(input, p) {
                Branch::Second
            } else {
                Branch::Neither
            },
        }
    }
}

pub open spec fn prefix_view(b: Option<String>) -> Option<Seq<char>> {
    match b {
        Some(p) => Some(p@),
        None => None,
    }
}

impl<S: Scanner<Output = U>, T: Scanner<Output = U>, U> Scanner for DisjointScan<S, T> {
    type Output = U;

    open spec fn accepts(&self, input: Seq<char>, out: U, n: int) -> bool {
        match spec_branch(input, self.scanner_a.0@, prefix_view(self.scanner_b.0)) {
            Branch::First => self.scanner_a.1.accepts(input, out, n),
            Branch::Second => self.scanner_b.1.accepts(input, out, n),
            Branch::Neither => false,
        }
    }

    /// Refused by the chosen scanner, or by none when the input begins with neither prefix.
    open spec fn refuses(&self, input: Seq<char>) -> bool {
        match spec_branch(input, self.scanner_a.0@, prefix_view(self.scanner_b.0)) {
            Branch::First => self.scanner_a.1.refuses(input),
            Branch::Second => self.scanner_b.1.refuses(input),
            Branch::Neither => true,
        }
    }

    fn scan(&self, input: &[char]) -> (r: Result<(U, usize), ScanError>)
        ensures
            spec_branch(input@, self.scanner_a.0@, prefix_view(self.scanner_b.0)) is Neither
                ==> r == Err::<(U, usize), ScanError>(
                ScanError::ExpectedEither(self.scanner_a.0, self.scanner_b.0.unwrap()),
            ),
    {
        if starts_with(input, &self.scanner_a.0) {
            self.scanner_a.1.scan(input)
        } else {
            match &self.scanner_b.0 {
                Some(prefix) => {
                    if starts_with(input, prefix) {
                        self.scanner_b.1.scan(input)
                    } else {
                        Err(ScanError::ExpectedEither(self.scanner_a.0.clone(), prefix.clone()))
                    }
                },
                None => self.scanner_b.1.scan(input),
            }
        }
    }
}

/// `vs` are the values of successive reads by `sc` that together take `input[..n]`.
pub open spec fn reads_in_turn<S: Scanner>(sc: S, input: Seq<char>, vs: Seq<S::Output>, n: int) -> bool
    decreases vs.len(),
{
    if vs.len() == 0 {
        n == 0
    } else {
        exists|m: int|
            0 <= m < n && n <= input.len() && reads_in_turn(sc, input, vs.drop_last(), m)
                && #[trigger] sc.accepts(input.subrange(m, input.len() as int), vs.last(), n - m)
    }
}

proof fn lemma_reads_step<S: Scanner>(sc: S, input: Seq<char>, vs: Seq<S::Output>, m: int, n: int)
    requires
        vs.len() > 0,
        0 <= m < n <= input.len(),
        reads_in_turn(sc, input, vs.drop_last(), m),
        sc.accepts(input.subrange(m, input.len() as int), vs.last(), n - m),
    ensures
        reads_in_turn(sc, input, vs, n),
{
}

impl<S: Scanner> Scanner for KleeneScan<S> {
    type Output = Vec<S::Output>;

    /// Reads in turn until the input ends, the scanner fails, or it reads nothing.
    open spec fn accepts(&self, input: Seq<char>, out: Vec<S::Output>, n: int) -> bool {
        &&& reads_in_turn(self.0, input, out@, n)
        &&& (n == input.len() || self.0.refuses(input.subrange(n, input.len() as int))
            || exists|x: S::Output| #[trigger] self.0.accepts(input.subrange(n, input.len() as int), x, 0))
    }

    /// Never fails.
    open spec fn refuses(&self, input: Seq<char>) -> bool {
        false
    }

    fn scan(&self, input: &[char]) -> (r: Result<(Vec<S::Output>, usize), ScanError>)
        ensures
            r is Ok,
    {
        let mut results: Vec<S::Output> = Vec::new();
        let mut at: usize = 0;
        while at < input.len()
            invariant
                at <= input@.len(),
                reads_in_turn(self.0, input@, results@, at as int),
            ensures
                at <= input@.len(),
                reads_in_turn(self.0, input@, results@, at as int),
                at == input@.len() || self.0.refuses(input@.subrange(at as int, input@.len() as int))
                    || exists|x: S::Output| #[trigger] self.0.accepts(
                    input@.subrange(at as int, input@.len() as int),
                    x,
                    0,
                ),
            decreases input@.len() - at,
        {
            let rest = slice_subrange(input, at, input.len());
            assert(rest@ == input@.subrange(at as int, input@.len() as int));
            match self.0.scan(rest) {
                Ok((x, n)) => {
                    if n == 0 {
                        break;
                    }
                    let ghost before = results@;
                    let ghost old_at = at as int;
                    results.push(x);
                    at += n;
                    proof {
                        assert(results@.drop_last() =~= before);
                        assert(results@.last() == x);
                        assert(reads_in_turn(self.0, input@, results@.drop_last(), old_at));
                        assert(self.0.accepts(
                            input@.subrange(old_at, input@.len() as int),
                            results@.last(),
                            at - old_at,
                        ));
                        lemma_reads_step(self.0, input@, results@, old_at, at as int);
                    }
                },
                Err(_) => {
                    break;
                },
            }
        }
        Ok((results, at))
    }
}

/// What consuming makes of the inner scanner's result: success only when it used all of
/// the `len` characters.
pub fn consume_result<T>(inner: Result<(T, usize), ScanError>, len: usize) -> (r: Result<
    (T, usize),
    ScanError,
>)
    ensures
        match inner {
            Ok((x, n)) => if n == len {
                r == Ok::<(T, usize), ScanError>((x, n))
            } else {
                r is Err && r->Err_0 is TrailingInput
            },
            Err(e) => r == Err::<(T, usize), ScanError>(e),
        },
{
    match inner {
        Ok((x, n)) => {
            if n == len {
                Ok((x, n))
            } else {
                Err(ScanError::TrailingInput)
            }
        },
        Err(e) => Err(e),
    }
}

impl<S: Scanner> Scanner for ConsumeScanner<S> {
    type Output = S::Output;

    open spec fn accepts(&self, input: Seq<char>, out: S::Output, n: int) -> bool {
        self.0.accepts(input, out, n) && n == input.len()
    }

    /// Refused by the scanner, or read by it with characters left over.
    open spec fn refuses(&self, input: Seq<char>) -> bool {
        self.0.refuses(input) || exists|x: S::Output, n: int|
            #[trigger] self.0.accepts(input, x, n) && n != input.len()
    }

    fn scan(&self, input: &[char]) -> (r: Result<(S::Output, usize), ScanError>)
        ensures
            r is Ok ==> r->Ok_0.1 == input@.len(),
    {
        let inner = self.0.scan(input);
        proof {
            if inner is Ok {
                assert(self.0.accepts(input@, inner->Ok_0.0, inner->Ok_0.1 as int));
            }
        }
        consume_result(inner, input.len())
    }
}

/// The part `[from, to)` of the input that the scanner sees.
pub open spec fn narrowed(m: InputMap, input: Seq<char>) -> (int, int) {
    match m {
        InputMap::Trim => {
            let a = ws_end(input.subrange(0, input.len() as int), 0);
            (a, trim_back(input, a, input.len() as int))
        },
        InputMap::SkipFirst => if input.len() == 0 {
            (0, 0)
        } else {
            (1, input.len() as int)
        },
    }
}

impl<S: Scanner> Scanner for MapInputScanner<S> {
    type Output = S::Output;

    /// The scanner reads the narrowed part; the count is taken from the start of the input.
    open spec fn accepts(&self, input: Seq<char>, out: S::Output, n: int) -> bool {
        let (from, to) = narrowed(self.mapper, input);
        from <= n && self.scanner.accepts(input.subrange(from, to), out, n - from)
    }

    open spec fn refuses(&self, input: Seq<char>) -> bool {
        let (from, to) = narrowed(self.mapper, input);
        self.scanner.refuses(input.subrange(from, to))
    }

    fn scan(&self, input: &[char]) -> (r: Result<(S::Output, usize), ScanError>) {
        let (from, to) = match self.mapper {
            InputMap::Trim => trimmed(input, 0, input.len()),
            InputMap::SkipFirst => {
                if input.len() == 0 {
                    (0, 0)
                } else {
                    (1, input.len())
                }
            },
        };
        proof {
            assert(input@.subrange(0, input@.len() as int) =~= input@);
        }
        let part = slice_subrange(input, from, to);
        match self.scanner.scan(part) {
            Ok((x, n)) => Ok((x, from + n)),
            Err(e) => Err(e),
        }
    }
}

/// `scan`, required to read its whole input.
pub fn consume<S: Scanner>(scan: S) -> (r: ConsumeScanner<S>)
    ensures
        r.0 == scan,
{
    ConsumeScanner(scan)
}

/// `scan` on its input without white space at either end.
pub fn trim<S: Scanner>(scan: S) -> (r: MapInputScanner<S>)
    ensures
        r.scanner == scan,
        r.mapper == InputMap::Trim,
{
    MapInputScanner { scanner: scan, mapper: InputMap::Trim }
}

/// `scan` on its input narrowed by `map`.
pub fn scan_map_input<S: Scanner>(scan: S, map: InputMap) -> (r: MapInputScanner<S>)
    ensures
        r.scanner == scan,
        r.mapper == map,
{
    MapInputScanner { scanner: scan, mapper: map }
}

/// `scan` as often as it reads something.
pub fn kleene<S: Scanner>(scan: S) -> (r: KleeneScan<S>)
    ensures
        r.0 == scan,
{
    KleeneScan(scan)
}

/// `scan1`, then `scan2` on what `scan1` left.
pub fn concat<S: Scanner, T: Scanner>(scan1: S, scan2: T) -> (r: ConcatScan<S, T>)
    ensures
        r.0 == scan1,
        r.1 == scan2,
{
    ConcatScan(scan1, scan2)
}

/// `scan1` where the input begins with `prefix1`; otherwise `scan2`, where `prefix2` is
/// absent or begins the input; otherwise an error that names both prefixes.
pub fn disjoint<S: Scanner<Output = U>, T: Scanner<Output = U>, U>(
    prefix1: String,
    scan1: S,
    prefix2: Option<String>,
    scan2: T,
) -> (r: DisjointScan<S, T>)
    ensures
        r.scanner_a == (prefix1, scan1),
        r.scanner_b == (prefix2, scan2),
{
    DisjointScan { scanner_a: (prefix1, scan1), scanner_b: (prefix2, scan2) }
}

/// The scanner, with its result turned into another value by `mapper`.
#[verifier::reject_recursive_types(T)]
pub struct MapScanner<S: Scanner, F: Fn(S::Output) -> T, T> {
    scanner: S,
    mapper: F,
    result: std::marker::PhantomData<T>,
}

impl<S: Scanner, F: Fn(S::Output) -> T, T> MapScanner<S, F, T> {
    /// The mapper takes every value that the scanner can give.
    #[verifier::type_invariant]
    spec fn total(self) -> bool {
        forall|x: S::Output| #[trigger] self.mapper.requires((x,))
    }

    pub closed spec fn inner(self) -> S {
        self.scanner
    }

    pub closed spec fn map(self) -> F {
        self.mapper
    }
}

impl<S: Scanner, F: Fn(S::Output) -> T, T> Scanner for MapScanner<S, F, T> {
    type Output = T;

    /// The scanner reads `x` with `n` characters and the mapper turns `x` into `out`.
    open spec fn accepts(&self, input: Seq<char>, out: T, n: int) -> bool {
        exists|x: S::Output|
            #[trigger] self.inner().accepts(input, x, n) && self.map().ensures((x,), out)
    }

    open spec fn refuses(&self, input: Seq<char>) -> bool {
        self.inner().refuses(input)
    }

    fn scan(&self, input: &[char]) -> (r: Result<(T, usize), ScanError>) {
        proof {
            use_type_invariant(self);
        }
        match self.scanner.scan(input) {
            Ok((x, n)) => {
                let y = (self.mapper)(x);
                assert(self.inner().accepts(input@, x, n as int));
                Ok((y, n))
            },
            Err(e) => Err(e),
        }
    }
}

/// `scan` with its result turned into another value by `map`, which must take every
/// value that `scan` can give.
pub fn scan_map<S: Scanner, F: Fn(S::Output) -> T, T>(scan: S, map: F) -> (r: MapScanner<S, F, T>)
    requires
        forall|x: S::Output| #[trigger] map.requires((x,)),
    ensures
        r.inner() == scan,
        r.map() == map,
{
    MapScanner { scanner: scan, mapper: map, result: std::marker::PhantomData }
}

} // verus!
