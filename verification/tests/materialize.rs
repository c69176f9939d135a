use recompose::{new_canonical, BoundedText, BufferOverflow, CharSink, Oracle, VecSink};

const ACUTE: char = '\u{301}';
const GRAVE: char = '\u{300}';
const E_ACUTE: char = '\u{e9}';

fn oracle() -> Oracle {
    Oracle::new(
        vec![(ACUTE, 230), (GRAVE, 230)],
        vec![('e', ACUTE, E_ACUTE)],
    )
}

#[test]
fn to_chars_collects_recomposed_text() {
    let r = new_canonical(oracle(), vec![Ok('e'), Ok(ACUTE), Ok('n'), Ok(GRAVE)]);
    assert_eq!(r.to_chars(), Ok(vec![E_ACUTE, 'n', GRAVE]));
}

#[test]
fn to_chars_surfaces_overflow() {
    let r = new_canonical(oracle(), vec![Ok('e'), Err(BufferOverflow)]);
    assert_eq!(r.to_chars(), Err(BufferOverflow));
}

#[test]
fn to_string_holds_recomposed_text() {
    let r = new_canonical(oracle(), vec![Ok('e'), Ok(ACUTE)]);
    let s: BoundedText<8> = r.to_string().unwrap();
    assert_eq!(s.as_str(), "\u{e9}");
}

#[test]
fn to_string_is_repeatable() {
    let r = new_canonical(oracle(), vec![Ok('e'), Ok(GRAVE)]);
    let s1: BoundedText<8> = r.to_string().unwrap();
    let s2: BoundedText<8> = r.to_string().unwrap();
    assert_eq!(s1.as_str(), "e\u{300}");
    assert_eq!(s1.as_str(), s2.as_str());
}

#[test]
fn to_string_of_composed_input_is_unchanged() {
    let r = new_canonical(oracle(), vec![Ok(E_ACUTE)]);
    let s: BoundedText<8> = r.to_string().unwrap();
    assert_eq!(s.as_str(), "\u{e9}");
}

#[test]
fn to_string_rejects_too_small_capacity() {
    let r = new_canonical(oracle(), vec![Ok('e'), Ok(GRAVE)]);
    let s: Result<BoundedText<2>, BufferOverflow> = r.to_string();
    assert!(s.is_err());
    let fits: Result<BoundedText<3>, BufferOverflow> = r.to_string();
    assert_eq!(fits.unwrap().as_str(), "e\u{300}");
}

#[test]
fn render_to_of_empty_output_succeeds() {
    let r = new_canonical(oracle(), vec![]);
    let mut sink = VecSink::new();
    assert_eq!(r.render_to(&mut sink), Ok(()));
    assert_eq!(sink.chars, Vec::<char>::new());
}

#[test]
fn render_to_appends_to_sink() {
    let r = new_canonical(oracle(), vec![Ok('e'), Ok(ACUTE), Ok('n')]);
    let mut sink = VecSink::new();
    sink.put('>').unwrap();
    assert_eq!(r.render_to(&mut sink), Ok(()));
    assert_eq!(sink.chars, vec!['>', E_ACUTE, 'n']);
}

#[test]
fn render_to_surfaces_overflow() {
    let r = new_canonical(oracle(), vec![Err(BufferOverflow)]);
    let mut sink = VecSink::new();
    assert_eq!(r.render_to(&mut sink), Err(BufferOverflow));
    assert_eq!(sink.chars, Vec::<char>::new());
}
