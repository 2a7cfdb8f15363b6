use music_turtles::cfg::{MusicPrimitive, MusicString, Terminal};
use music_turtles::cfg::TerminalNote;
use music_turtles::composition::Pitch;
use music_turtles::scan::{format_note, scan_note};
use music_turtles::cfg::{NonTerminal, Symbol};
use music_turtles::scan::ScanError;
use music_turtles::cfg::MusicTransform;
use music_turtles::composition::Instrument;
use music_turtles::frac::Frac;
use music_turtles::scan::chars_of;
use music_turtles::scanners::{
    disjoint, kleene, scan_map, trim, SpaceScanner, StringScanner,
    consume, ConsumeScanner, DurationScanner, FractionScanner, GrammarScanner, InstrumentScanner,
    MetaControlScanner, MusicPrimitiveRepeatScanner, MusicPrimitiveScanner, MusicStringScanner,
    MusicTransformScanner, NonTerminalScanner, NoteScanner, ProductionScanner, Scanner,
    SymbolScanner, TerminalScanner, VolumeScanner,
};

#[test]
fn test_1() {
    let input = chars_of("start S\nS = [x3][:4c<1> :4d :_ :f# :g :c ::i=piano B]\nB = :0c");
    let scanner = consume(GrammarScanner);
    let result = scanner.scan(&input);
    println!("result: {result:#?}");
    assert!(result.is_ok());
}

#[test]
fn test_instrument() {
    let input = chars_of("piano");
    let scanner = ConsumeScanner(InstrumentScanner);
    let result = scanner.scan(&input);
    println!("result: {result:#?}");
    assert!(result.is_ok());
}

#[test]
fn test_duration() {
    let input = chars_of("<1/4>");
    let scanner = ConsumeScanner(DurationScanner);
    let result = scanner.scan(&input);
    println!("result: {result:#?}");
    assert!(result.is_ok());
}

#[test]
fn test_volume() {
    let input = chars_of("20");
    let scanner = ConsumeScanner(VolumeScanner);
    let result = scanner.scan(&input);
    println!("result: {result:#?}");
    assert!(result.is_ok());
}

#[test]
fn test_note() {
    let input = chars_of("4c#");
    let scanner = ConsumeScanner(NoteScanner);
    let result = scanner.scan(&input);
    println!("result: {result:#?}");
    assert!(result.is_ok());
}

#[test]
fn test_rest() {
    let input = chars_of("_");
    let scanner = ConsumeScanner(NoteScanner);
    let result = scanner.scan(&input);
    println!("result: {result:#?}");
    assert!(result.is_ok());
}

#[test]
fn test_meta_control() {
    let input = chars_of("i=piano");
    let scanner = ConsumeScanner(MetaControlScanner);
    let result = scanner.scan(&input);
    println!("result: {result:#?}");
    assert!(result.is_ok());
}

#[test]
fn test_meta_control_terminal() {
    let input = chars_of(":i=piano");
    let scanner = ConsumeScanner(TerminalScanner);
    let result = scanner.scan(&input);
    println!("result: {result:#?}");
    assert!(result.is_ok());
}

#[test]
fn test_terminal() {
    let input = chars_of("4c<1>");
    let scanner = ConsumeScanner(TerminalScanner);
    let result = scanner.scan(&input);
    println!("result: {result:#?}");
    assert!(result.is_ok());
}

#[test]
fn test_nonterminal() {
    let input = chars_of("S-b");
    let scanner = ConsumeScanner(NonTerminalScanner);
    let result = scanner.scan(&input);
    println!("result: {result:#?}");
    assert!(result.is_ok());
}

#[test]
fn symbol_scanner_1() {
    let input = chars_of(":bb");
    let scanner = ConsumeScanner(SymbolScanner);
    let result = scanner.scan(&input);
    println!("result: {result:#?}");
    assert!(result.is_ok());
}

#[test]
fn symbol_scanner_2() {
    let input = chars_of("::i=piano");
    let scanner = ConsumeScanner(SymbolScanner);
    let result = scanner.scan(&input);
    println!("result: {result:#?}");
    assert!(result.is_ok());
}

#[test]
fn symbol_scanner_3() {
    let input = chars_of("T");
    let scanner = ConsumeScanner(SymbolScanner);
    let result = scanner.scan(&input);
    println!("result: {result:#?}");
    assert!(result.is_ok());
}

#[test]
fn symbol_scanner_4() {
    let input = chars_of("(");
    let scanner = ConsumeScanner(SymbolScanner);
    let result = scanner.scan(&input);
    println!("result: {result:#?}");
    assert!(result.is_err());
}

#[test]
fn primitive_scanner_1() {
    let input = chars_of("(");
    let scanner = MusicPrimitiveScanner;
    let result = scanner.scan(&input);
    println!("result: {result:#?}");
    assert!(result.is_err());
}

#[test]
fn primitive_scanner_2() {
    let input = chars_of("[x2][(]");
    let scanner = MusicPrimitiveRepeatScanner;
    let result = scanner.scan(&input);
    println!("result: {result:#?}");
    assert!(result.is_err());
}

#[test]
fn music_string_scanner_0() {
    let input = chars_of(":4c<1> :4d :_ :f# :g :c ::i=piano Ba-c");
    let scanner = ConsumeScanner(MusicStringScanner);
    let result = scanner.scan(&input);
    println!("result: {result:#?}");
    assert!(result.is_ok());
}

#[test]
fn music_string_scanner_1() {
    let input = chars_of(":4c<1> :4d :_ :f# :g :c ::i=piano B");
    let scanner = ConsumeScanner(MusicStringScanner);
    let result = scanner.scan(&input);
    println!("result: {result:#?}");
    assert!(result.is_ok());
}

#[test]
fn music_transform_scanner_1() {
    let input = chars_of("x3");
    let scanner = ConsumeScanner(MusicTransformScanner);
    let result = scanner.scan(&input);
    println!("result: {result:#?}");
    assert!(result.is_ok());
}

#[test]
fn music_transform_scanner_2() {
    let input = chars_of("T1");
    let scanner = ConsumeScanner(MusicTransformScanner);
    let result = scanner.scan(&input);
    println!("result: {result:#?}");
    assert!(result.is_ok());
}

#[test]
fn music_transform_scanner_3() {
    let input = chars_of("T-1");
    let scanner = ConsumeScanner(MusicTransformScanner);
    let result = scanner.scan(&input);
    println!("result: {result:#?}");
    assert!(result.is_ok());
}

#[test]
fn music_primitive_repeat_scanner() {
    let input = chars_of("[x3][:4c<1> :4d :_ :f# :g :c ::i=piano B]");
    let scanner = ConsumeScanner(MusicPrimitiveRepeatScanner);
    let result = scanner.scan(&input);
    println!("result: {result:#?}");
    assert!(result.is_ok());
}

#[test]
fn music_primitive_repeat_bad_string_test_1() {
    let input = chars_of("[x3][nont( nont2]");
    let scanner = ConsumeScanner(MusicPrimitiveRepeatScanner);
    let result = scanner.scan(&input);
    println!("result: {result:#?}");
    assert!(result.is_err());
}

#[test]
fn music_primitive_split_scanner() {
    let input = chars_of("{:4c<1> :4d :_ :f# :g :c ::i=piano B | :4c<1> :4d :_ :f# :g :c ::i=piano B }");
    let scanner = ConsumeScanner(MusicPrimitiveScanner);
    let result = scanner.scan(&input);
    println!("result: {result:#?}");
    assert!(result.is_ok());
}

#[test]
fn music_string_scanner_2() {
    let input = chars_of("{:4c<1> :4d :_ :f# :g :c ::i=piano B | [x3][:4c<1> :4d :_ :f# :g :c ::i=piano B]}");
    let scanner = ConsumeScanner(MusicStringScanner);
    let result = scanner.scan(&input);
    println!("result: {result:#?}");
    assert!(result.is_ok());
}

#[test]
fn production_scanner_1() {
    let input = chars_of("S = [x3][:4c<1> :4d :_ :f# :g :c ::i=piano B]");
    let scanner = ConsumeScanner(ProductionScanner);
    let result = scanner.scan(&input);
    println!("result: {result:#?}");
    assert!(result.is_ok());
}

#[test]
fn test_fraction() {
    let input = chars_of("3/4");
    let scanner = consume(FractionScanner);
    let result = scanner.scan(&input).unwrap().0;
    assert_eq!(result, Frac::new(3, 4));
}

#[test]
fn test_fraction_2() {
    let input = chars_of("-3/4");
    let scanner = consume(FractionScanner);
    let result = scanner.scan(&input).unwrap().0;
    assert_eq!(result, Frac::new(-3, 4));
}

#[test]
fn test_fraction_3() {
    let input = chars_of("3");
    let scanner = consume(FractionScanner);
    let result = scanner.scan(&input).unwrap().0;
    assert_eq!(result, Frac::new(3, 1));
}

#[test]
fn note_text_round_trip() {
    for octave in 0..10 {
        for semitone in 0..12u8 {
            let note = TerminalNote::Note { pitch: Pitch(octave, semitone) };
            let text = format_note(note);
            let (read, used) = scan_note(&text).unwrap();
            assert_eq!(read, note);
            assert_eq!(used, text.len());
        }
    }
    assert_eq!(format_note(TerminalNote::Rest), vec!['_']);
    assert_eq!(format_note(TerminalNote::Note { pitch: Pitch(4, 4) }), vec!['4', 'c', '#']);
}

#[test]
fn names_keep_their_characters() {
    let input = chars_of("Ab-c9 rest");
    let (symbol, used) = SymbolScanner.scan(&input).unwrap();
    assert_eq!(used, 5);
    match symbol {
        Symbol::NT(NonTerminal::Custom(name)) => assert_eq!(name, "Ab-c9"),
        _ => panic!("expected a non-terminal"),
    }
}

#[test]
fn scan_errors() {
    let unbalanced = ConsumeScanner(MusicPrimitiveScanner).scan(&chars_of("{:4c"));
    assert!(matches!(unbalanced, Err(ScanError::UnbalancedBracket('{'))));
    let trailing = ConsumeScanner(NoteScanner).scan(&chars_of("4c<1>"));
    assert!(matches!(trailing, Err(ScanError::TrailingInput)));
    let no_start = consume(GrammarScanner).scan(&chars_of("S = :4c"));
    assert!(matches!(no_start, Err(ScanError::MissingStart)));
    let bad_note = NoteScanner.scan(&chars_of("h"));
    assert!(matches!(bad_note, Err(ScanError::Generic(_))));
}

#[test]
fn durations_and_transforms() {
    let (d, used) = DurationScanner.scan(&chars_of("<3/8> rest")).unwrap();
    assert_eq!((d, used), (Frac::new(3, 8), 5));
    let (d, used) = DurationScanner.scan(&chars_of("<2>")).unwrap();
    assert_eq!((d, used), (Frac::new(1, 2), 3));
    let (d, used) = DurationScanner.scan(&chars_of(" x")).unwrap();
    assert_eq!((d, used), (Frac::new(1, 4), 0));
    assert!(DurationScanner.scan(&chars_of("<1/0>")).is_err());
    let (t, _) = MusicTransformScanner.scan(&chars_of(">>3/2")).unwrap();
    assert_eq!(t, MusicTransform::Compression { factor: Frac::new(2, 3) });
    let (t, _) = MusicTransformScanner.scan(&chars_of("T-12")).unwrap();
    assert_eq!(t, MusicTransform::Transpose { semitones: -12 });
    assert!(MusicTransformScanner.scan(&chars_of("x0")).is_err());
    assert!(MusicTransformScanner.scan(&chars_of(">>0")).is_err());
    assert_eq!(consume(FractionScanner).scan(&chars_of("6/-4")).unwrap().0, Frac::new(-3, 2));
}

#[test]
fn instrument_names_ignore_case() {
    let (i, used) = InstrumentScanner.scan(&chars_of("PiAnO rest")).unwrap();
    assert_eq!((i, used), (Instrument::Piano, 5));
    assert!(InstrumentScanner.scan(&chars_of("kazoo")).is_err());
    let (v, _) = VolumeScanner.scan(&chars_of("100")).unwrap();
    assert_eq!(v.0, 100);
    assert!(VolumeScanner.scan(&chars_of("101")).is_err());
}

#[test]
fn combinators_compose() {
    let rest_or_note = scan_map(NoteScanner, |n: TerminalNote| matches!(n, TerminalNote::Rest));
    assert_eq!(rest_or_note.scan(&chars_of("_")).unwrap(), (true, 1));
    assert_eq!(rest_or_note.scan(&chars_of("4c")).unwrap(), (false, 2));
    let pair = music_turtles::scanners::concat(NonTerminalScanner, trim(StringScanner("=".to_string())));
    let ((name, eq), used) = pair.scan(&chars_of("S =")).unwrap();
    assert_eq!((name.as_str(), eq.as_str(), used), ("S", "=", 3));
    let words = kleene(music_turtles::scanners::concat(NonTerminalScanner, SpaceScanner));
    let (found, used) = words.scan(&chars_of("a b c")).unwrap();
    assert_eq!((found.len(), used), (2, 4));
    let either = disjoint("{".to_string(), MusicPrimitiveScanner, Some(":".to_string()), MusicPrimitiveScanner);
    assert!(either.scan(&chars_of(":4c")).is_ok());
    match either.scan(&chars_of("A")) {
        Err(ScanError::ExpectedEither(a, b)) => assert_eq!((a.as_str(), b.as_str()), ("{", ":")),
        _ => panic!("expected a refusal naming both prefixes"),
    }
}

#[test]
fn canonical_text_reads_back() {
    let ms = MusicString::parse("[x2][[T-3][:4c<1/4> ] ::v=20 ] B ").unwrap();
    assert_eq!(ms.0.len(), 2);
    match &ms.0[0] {
        MusicPrimitive::Transform { transform, content } => {
            assert_eq!(*transform, MusicTransform::Repeat { num: 2 });
            assert_eq!(content.0.len(), 2);
            match &content.0[0] {
                MusicPrimitive::Transform { transform, content } => {
                    assert_eq!(*transform, MusicTransform::Transpose { semitones: -3 });
                    match &content.0[0] {
                        MusicPrimitive::Simple(Symbol::T(Terminal::Music { duration, note })) => {
                            assert_eq!(*duration, Frac::new(1, 4));
                            assert_eq!(*note, TerminalNote::Note { pitch: Pitch(4, 3) });
                        }
                        _ => panic!("expected a note"),
                    }
                }
                _ => panic!("expected a transpose"),
            }
        }
        _ => panic!("expected a repeat"),
    }
}

#[test]
fn unbalanced_brackets_are_named() {
    assert!(matches!(
        MusicPrimitiveScanner.scan(&chars_of("{:4c | :4d")),
        Err(ScanError::UnbalancedBracket('{'))
    ));
    assert!(matches!(
        MusicPrimitiveScanner.scan(&chars_of("[x2")),
        Err(ScanError::UnbalancedBracket('['))
    ));
    assert!(matches!(
        MusicPrimitiveScanner.scan(&chars_of("[x2][:4c")),
        Err(ScanError::UnbalancedBracket('['))
    ));
    assert!(matches!(
        DurationScanner.scan(&chars_of("<1/4")),
        Err(ScanError::UnbalancedBracket('<'))
    ));
    assert!(matches!(
        GrammarScanner.scan(&chars_of("// c\nS = :4c\nstart S")),
        Err(ScanError::MissingStart)
    ));
}

#[test]
fn consume_and_kleene() {
    let whole = ConsumeScanner(NoteScanner);
    assert!(matches!(whole.scan(&chars_of("4c ")), Err(ScanError::TrailingInput)));
    assert_eq!(whole.scan(&chars_of("4c")).unwrap(), (TerminalNote::Note { pitch: Pitch(4, 3) }, 2));
    let notes = kleene(NoteScanner);
    let (found, used) = notes.scan(&chars_of("_4c#dz")).unwrap();
    assert_eq!(used, 5);
    assert_eq!(found.len(), 3);
    assert_eq!(notes.scan(&chars_of("")).unwrap().1, 0);
    let trimmed = trim(NoteScanner);
    assert_eq!(trimmed.scan(&chars_of("  4c  ")).unwrap().1, 4);
    assert_eq!(SpaceScanner.scan(&chars_of(" \t x")).unwrap().1, 3);
    assert!(SpaceScanner.scan(&chars_of("x")).is_err());
}
