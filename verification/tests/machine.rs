use recompose::{new_canonical, new_compatible, BufferOverflow, Oracle, Recompositions};

const ACUTE: char = '\u{301}';
const GRAVE: char = '\u{300}';
const E_ACUTE: char = '\u{e9}';

fn oracle() -> Oracle {
    Oracle::new(
        vec![(ACUTE, 230), (GRAVE, 230)],
        vec![('e', ACUTE, E_ACUTE)],
    )
}

fn drain(mut r: Recompositions) -> Vec<Result<char, BufferOverflow>> {
    let mut out = Vec::new();
    loop {
        match r.next() {
            Some(e) => out.push(e),
            None => return out,
        }
    }
}

#[test]
fn compose_pair_emits_composed() {
    let r = new_canonical(oracle(), vec![Ok('e'), Ok(ACUTE)]);
    assert_eq!(drain(r), vec![Ok(E_ACUTE)]);
}

#[test]
fn uncomposable_mark_buffered_then_flushed() {
    let r = new_canonical(oracle(), vec![Ok('e'), Ok(GRAVE)]);
    assert_eq!(drain(r), vec![Ok('e'), Ok(GRAVE)]);
}

#[test]
fn blocking_preserves_marks_in_order() {
    let r = new_canonical(oracle(), vec![Ok('e'), Ok(GRAVE), Ok(GRAVE)]);
    assert_eq!(drain(r), vec![Ok('e'), Ok(GRAVE), Ok(GRAVE)]);
}

#[test]
fn blocked_mark_not_skipped_ahead() {
    // grave buffered first blocks the acute of equal class: e must not
    // compose with the acute, and both marks keep their order.
    let r = new_canonical(oracle(), vec![Ok('e'), Ok(GRAVE), Ok(ACUTE)]);
    assert_eq!(drain(r), vec![Ok('e'), Ok(GRAVE), Ok(ACUTE)]);
}

#[test]
fn bare_mark_first_is_emitted_unchanged() {
    let r = new_canonical(oracle(), vec![Ok(GRAVE)]);
    assert_eq!(drain(r), vec![Ok(GRAVE)]);
}

#[test]
fn empty_input_reports_end_immediately() {
    let mut r = new_canonical(oracle(), vec![]);
    assert_eq!(r.next(), None);
}

#[test]
fn fused_after_end() {
    let mut r = new_canonical(oracle(), vec![Ok('e'), Ok(ACUTE)]);
    assert_eq!(r.next(), Some(Ok(E_ACUTE)));
    assert_eq!(r.next(), None);
    assert_eq!(r.next(), None);
    assert_eq!(r.next(), None);
}

#[test]
fn thirty_two_marks_still_fit() {
    let mut input = vec![Ok('e')];
    for _ in 0..32 {
        input.push(Ok(GRAVE));
    }
    let out = drain(new_canonical(oracle(), input));
    assert_eq!(out.len(), 33);
    assert_eq!(out[0], Ok('e'));
    for i in 1..33 {
        assert_eq!(out[i], Ok(GRAVE));
    }
}

#[test]
fn thirty_three_marks_overflow() {
    let mut input = vec![Ok('e')];
    for _ in 0..33 {
        input.push(Ok(GRAVE));
    }
    let mut r = new_canonical(oracle(), input);
    assert_eq!(r.next(), Some(Err(BufferOverflow)));
}

#[test]
fn recomposing_composed_input_is_unchanged() {
    let once = drain(new_canonical(oracle(), vec![Ok('e'), Ok(ACUTE)]));
    assert_eq!(once, vec![Ok(E_ACUTE)]);
    let again = drain(new_canonical(oracle(), vec![Ok(E_ACUTE)]));
    assert_eq!(again, vec![Ok(E_ACUTE)]);
    let buffered = drain(new_canonical(oracle(), vec![Ok('e'), Ok(GRAVE)]));
    let rerun: Vec<Result<char, BufferOverflow>> = buffered.clone();
    assert_eq!(drain(new_canonical(oracle(), rerun)), buffered);
}

#[test]
fn upstream_failure_propagated_unchanged() {
    let r = new_canonical(oracle(), vec![Ok('e'), Err(BufferOverflow)]);
    assert_eq!(drain(r), vec![Err(BufferOverflow), Ok('e')]);
}

#[test]
fn new_base_flushes_purge_then_resumes() {
    // e, grave, then a new base n: e comes out, the buffered grave is
    // purged verbatim, and n is adopted and emitted at the end.
    let r = new_canonical(oracle(), vec![Ok('e'), Ok(GRAVE), Ok('n')]);
    assert_eq!(drain(r), vec![Ok('e'), Ok(GRAVE), Ok('n')]);
}

#[test]
fn buffer_is_reused_after_purge() {
    // after the purge drains the first grave, the buffer starts afresh
    // for the marks attached to the new base n.
    let r = new_canonical(oracle(), vec![Ok('e'), Ok(GRAVE), Ok('n'), Ok(GRAVE)]);
    assert_eq!(drain(r), vec![Ok('e'), Ok(GRAVE), Ok('n'), Ok(GRAVE)]);
}

#[test]
fn compatible_constructor_behaves_alike() {
    let r = new_compatible(oracle(), vec![Ok('e'), Ok(ACUTE)]);
    assert_eq!(drain(r), vec![Ok(E_ACUTE)]);
}

#[test]
fn duplicate_is_independent() {
    let mut a = new_canonical(oracle(), vec![Ok('e'), Ok(ACUTE)]);
    let mut b = a.duplicate();
    assert_eq!(a.next(), Some(Ok(E_ACUTE)));
    assert_eq!(a.next(), None);
    assert_eq!(b.next(), Some(Ok(E_ACUTE)));
    assert_eq!(b.next(), None);
}

#[test]
fn duplicate_mid_stream_keeps_state() {
    let mut a = new_canonical(oracle(), vec![Ok('e'), Ok(GRAVE), Ok('n')]);
    assert_eq!(a.next(), Some(Ok('e')));
    let mut b = a.duplicate();
    assert_eq!(a.next(), Some(Ok(GRAVE)));
    assert_eq!(b.next(), Some(Ok(GRAVE)));
    assert_eq!(a.next(), Some(Ok('n')));
    assert_eq!(b.next(), Some(Ok('n')));
    assert_eq!(a.next(), None);
    assert_eq!(b.next(), None);
}

#[test]
fn oracle_lookup_defaults() {
    let o = oracle();
    assert_eq!(o.combining_class('e'), 0);
    assert_eq!(o.combining_class(ACUTE), 230);
    assert_eq!(o.compose('e', ACUTE), Some(E_ACUTE));
    assert_eq!(o.compose('e', GRAVE), None);
}
