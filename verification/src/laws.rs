use vstd::prelude::*;

use crate::oracle::{cc_of, compose_of, OracleModel};
use crate::recompose::{
    init_model, lemma_emit_step, lemma_skip_step, measure, remaining, step, RecModel,
    RecompositionState, Step,
};
use crate::text::{all_ok, ok_chars, ok_results};
use crate::BufferOverflow;

verus! {

/// A held candidate as a (zero- or one-element) character sequence.
pub open spec fn opt_seq(c: Option<char>) -> Seq<char> {
    match c {
        Some(k) => seq![k],
        None => Seq::empty(),
    }
}

/// An oracle under which no pair composes — the shape canonical
/// composition takes on text that is already fully composed.
pub open spec fn compose_free(o: OracleModel) -> bool {
    forall|a: char, b: char| #[trigger] compose_of(o, a, b) is None
}

proof fn lemma_all_ok_split(s1: Seq<Result<char, BufferOverflow>>, s2: Seq<
    Result<char, BufferOverflow>,
>)
    ensures
        all_ok(s1 + s2) == (all_ok(s1) && all_ok(s2)),
{
    if all_ok(s1 + s2) {
        assert forall|i: int| 0 <= i < s1.len() implies s1[i] is Ok by {
            assert((s1 + s2)[i] == s1[i]);
        }
        assert forall|i: int| 0 <= i < s2.len() implies s2[i] is Ok by {
            assert((s1 + s2)[i + s1.len()] == s2[i]);
        }
    }
    if all_ok(s1) && all_ok(s2) {
        assert forall|i: int| 0 <= i < (s1 + s2).len() implies (s1 + s2)[i] is Ok by {
            if i < s1.len() {
                assert((s1 + s2)[i] == s1[i]);
            } else {
                assert((s1 + s2)[i] == s2[i - s1.len()]);
            }
        }
    }
}

/// Draining the buffer in `Finished(i)` hands out the items from `i` on,
/// then the candidate, then nothing more.
proof fn lemma_finish_drain(m: RecModel, i: usize)
    requires
        m.state == RecompositionState::Finished(i),
        m.buffer.len() <= 32,
        i <= m.buffer.len(),
    ensures
        remaining(m) == ok_results(m.buffer.skip(i as int) + opt_seq(m.composee)),
    decreases m.buffer.len() - i,
{
    if (i as int) < m.buffer.len() {
        let m2 = RecModel { state: RecompositionState::Finished((i + 1) as usize), ..m };
        assert(step(m) == Step::Emit(Ok(m.buffer[i as int]), m2));
        lemma_emit_step(m, m2, Ok(m.buffer[i as int]));
        lemma_finish_drain(m2, (i + 1) as usize);
        assert(remaining(m) =~= ok_results(m.buffer.skip(i as int) + opt_seq(m.composee)));
    } else {
        match m.composee {
            Some(k) => {
                let m2 = RecModel { buffer: Seq::empty(), composee: None, ..m };
                assert(step(m) == Step::Emit(Ok(k), m2));
                lemma_emit_step(m, m2, Ok(k));
                assert(step(m2) == Step::Done);
                assert(remaining(m2) =~= Seq::<Result<char, BufferOverflow>>::empty());
                assert(remaining(m) =~= ok_results(m.buffer.skip(i as int) + opt_seq(m.composee)));
            },
            None => {
                assert(step(m) == Step::Done);
                assert(remaining(m) =~= ok_results(m.buffer.skip(i as int) + opt_seq(m.composee)));
            },
        }
    }
}

/// Draining the buffer in `Purging(i)` hands out the items from `i` on,
/// verbatim, and then resumes composing with a cleared buffer.
proof fn lemma_purge_drain(m: RecModel, i: usize)
    requires
        m.state == RecompositionState::Purging(i),
        m.buffer.len() <= 32,
        i <= m.buffer.len(),
    ensures
        remaining(m) == ok_results(m.buffer.skip(i as int)) + remaining(
            RecModel { state: RecompositionState::Composing, buffer: Seq::empty(), ..m },
        ),
    decreases m.buffer.len() - i,
{
    if (i as int) < m.buffer.len() {
        let m2 = RecModel { state: RecompositionState::Purging((i + 1) as usize), ..m };
        assert(step(m) == Step::Emit(Ok(m.buffer[i as int]), m2));
        lemma_emit_step(m, m2, Ok(m.buffer[i as int]));
        lemma_purge_drain(m2, (i + 1) as usize);
        assert(remaining(m) =~= ok_results(m.buffer.skip(i as int)) + remaining(
            RecModel { state: RecompositionState::Composing, buffer: Seq::empty(), ..m },
        ));
    } else {
        let m2 = RecModel { state: RecompositionState::Composing, buffer: Seq::empty(), ..m };
        assert(step(m) == Step::Skip(m2));
        lemma_skip_step(m, m2);
        assert(remaining(m) =~= ok_results(m.buffer.skip(i as int)) + remaining(m2));
    }
}

/// Under a composition-free oracle a composing machine that owes no
/// failure hands out, unchanged and in order, its candidate, its buffered
/// marks and every character still upstream.
proof fn lemma_compose_free_transparent(m: RecModel)
    requires
        m.state == RecompositionState::Composing,
        compose_free(m.oracle),
        all_ok(m.input),
        m.buffer.len() <= 32,
        m.composee is None ==> m.buffer.len() == 0,
        m.last_ccc is None ==> m.buffer.len() == 0,
    ensures
        all_ok(remaining(m)) ==> remaining(m) == ok_results(
            opt_seq(m.composee) + m.buffer + ok_chars(m.input),
        ),
    decreases measure(m),
{
    if !all_ok(remaining(m)) {
        return;
    }
    if m.input.len() == 0 {
        let m2 = RecModel { state: RecompositionState::Finished(0), composee: None, ..m };
        match m.composee {
            Some(k) => {
                assert(step(m) == Step::Emit(Ok(k), m2));
                lemma_emit_step(m, m2, Ok(k));
            },
            None => {
                assert(step(m) == Step::Skip(m2));
                lemma_skip_step(m, m2);
            },
        }
        lemma_finish_drain(m2, 0);
        assert(remaining(m) =~= ok_results(opt_seq(m.composee) + m.buffer + ok_chars(m.input)));
    } else {
        assert(m.input[0] is Ok);
        let ch = m.input[0]->Ok_0;
        let rest = m.input.drop_first();
        let cls = cc_of(m.oracle, ch);
        assert forall|i: int| 0 <= i < rest.len() implies rest[i] is Ok by {
            assert(rest[i] == m.input[i + 1]);
        }
        assert(ok_chars(m.input) =~= seq![ch] + ok_chars(rest));
        match m.composee {
            None => {
                if cls != 0 {
                    let m2 = RecModel { input: rest, ..m };
                    assert(step(m) == Step::Emit(Ok(ch), m2));
                    lemma_emit_step(m, m2, Ok(ch));
                    assert forall|i: int| 0 <= i < remaining(m2).len() implies remaining(
                        m2,
                    )[i] is Ok by {
                        assert(remaining(m2)[i] == remaining(m).drop_first()[i]);
                    }
                    lemma_compose_free_transparent(m2);
                    assert(remaining(m) =~= ok_results(
                        opt_seq(m.composee) + m.buffer + ok_chars(m.input),
                    ));
                } else {
                    let m2 = RecModel { input: rest, composee: Some(ch), ..m };
                    assert(step(m) == Step::Skip(m2));
                    lemma_skip_step(m, m2);
                    lemma_compose_free_transparent(m2);
                    assert(remaining(m) =~= ok_results(
                        opt_seq(m.composee) + m.buffer + ok_chars(m.input),
                    ));
                }
            },
            Some(k) => {
                assert(compose_of(m.oracle, k, ch) is None);
                let blocked = match m.last_ccc {
                    Some(l) => l >= cls,
                    None => false,
                };
                if blocked && cls == 0 {
                    let m_p = RecModel {
                        input: rest,
                        composee: Some(ch),
                        last_ccc: None,
                        state: RecompositionState::Purging(0),
                        ..m
                    };
                    assert(step(m) == Step::Emit(Ok(k), m_p));
                    lemma_emit_step(m, m_p, Ok(k));
                    lemma_purge_drain(m_p, 0);
                    let m_c = RecModel {
                        state: RecompositionState::Composing,
                        buffer: Seq::empty(),
                        ..m_p
                    };
                    assert(m_p.buffer.skip(0) =~= m.buffer);
                    assert forall|i: int| 0 <= i < remaining(m_p).len() implies remaining(
                        m_p,
                    )[i] is Ok by {
                        assert(remaining(m_p)[i] == remaining(m).drop_first()[i]);
                    }
                    lemma_all_ok_split(ok_results(m.buffer), remaining(m_c));
                    assert(measure(m_c) < measure(m));
                    lemma_compose_free_transparent(m_c);
                    assert(remaining(m) =~= seq![Ok::<char, BufferOverflow>(k)] + (ok_results(
                        m.buffer,
                    ) + remaining(m_c)));
                    assert(remaining(m) =~= ok_results(
                        opt_seq(m.composee) + m.buffer + ok_chars(m.input),
                    ));
                } else if blocked || !(m.last_ccc is None && cls == 0) {
                    if m.buffer.len() >= 32 {
                        let m2 = RecModel { input: rest, ..m };
                        assert(step(m) == Step::Emit(Err(BufferOverflow), m2));
                        lemma_emit_step(m, m2, Err(BufferOverflow));
                        assert(!all_ok(remaining(m)));
                    } else {
                        let m2 = RecModel {
                            input: rest,
                            buffer: m.buffer.push(ch),
                            last_ccc: Some(cls),
                            ..m
                        };
                        assert(step(m) == Step::Skip(m2));
                        lemma_skip_step(m, m2);
                        lemma_compose_free_transparent(m2);
                        assert(opt_seq(m2.composee) + m2.buffer + ok_chars(m2.input) =~= opt_seq(
                            m.composee,
                        ) + m.buffer + ok_chars(m.input));
                    }
                } else {
                    let m2 = RecModel { input: rest, composee: Some(ch), ..m };
                    assert(step(m) == Step::Emit(Ok(k), m2));
                    lemma_emit_step(m, m2, Ok(k));
                    assert forall|i: int| 0 <= i < remaining(m2).len() implies remaining(
                        m2,
                    )[i] is Ok by {
                        assert(remaining(m2)[i] == remaining(m).drop_first()[i]);
                    }
                    lemma_compose_free_transparent(m2);
                    assert(remaining(m) =~= ok_results(
                        opt_seq(m.composee) + m.buffer + ok_chars(m.input),
                    ));
                }
            },
        }
    }
}

/// Idempotence on already-composed input: under an oracle that defines no
/// composition for any pair — the situation canonical recomposition meets
/// on text it has already fully composed — a run that owes no overflow
/// failure hands the input back unchanged.
pub proof fn lemma_compose_free_identity(o: OracleModel, s: Seq<char>)
    requires
        compose_free(o),
    ensures
        all_ok(remaining(init_model(o, ok_results(s)))) ==> remaining(
            init_model(o, ok_results(s)),
        ) == ok_results(s),
{
    let m0 = init_model(o, ok_results(s));
    assert forall|i: int| 0 <= i < m0.input.len() implies m0.input[i] is Ok by {
        assert(m0.input[i] == Ok::<char, BufferOverflow>(s[i]));
    }
    lemma_compose_free_transparent(m0);
    assert(ok_chars(m0.input) =~= s);
    assert(opt_seq(m0.composee) + m0.buffer + ok_chars(m0.input) =~= s);
}

/// The machine state after a base `b` and the first `j` of one run of
/// mutually blocked marks of one class have been pulled: the candidate is
/// still `b` and those `j` marks sit in the lookback buffer, in order.
spec fn filled_state(o: OracleModel, b: char, ms: Seq<char>, cls: u8, j: int) -> RecModel {
    RecModel {
        oracle: o,
        input: ok_results(ms.skip(j)),
        state: RecompositionState::Composing,
        buffer: ms.take(j),
        composee: Some(b),
        last_ccc: Some(cls),
    }
}

proof fn lemma_fill(o: OracleModel, b: char, ms: Seq<char>, cls: u8, j: int)
    requires
        1 <= j <= 32,
        ms.len() == 33,
        cls != 0,
        forall|i: int| 0 <= i < ms.len() ==> cc_of(o, ms[i]) == cls,
        forall|i: int| 0 <= i < ms.len() ==> compose_of(o, b, ms[i]) == None::<char>,
    ensures
        remaining(filled_state(o, b, ms, cls, j)) == remaining(filled_state(o, b, ms, cls, 32)),
    decreases 32 - j,
{
    if j < 32 {
        let sj = filled_state(o, b, ms, cls, j);
        let sj1 = filled_state(o, b, ms, cls, j + 1);
        assert(sj.input.len() == 33 - j);
        assert(sj.input[0] == Ok::<char, BufferOverflow>(ms[j]));
        assert(sj.input.drop_first() =~= ok_results(ms.skip(j + 1)));
        assert(sj.buffer.len() == j);
        assert(sj.buffer.push(ms[j]) =~= ms.take(j + 1));
        assert(step(sj) == Step::Skip(sj1));
        lemma_skip_step(sj, sj1);
        lemma_fill(o, b, ms, cls, j + 1);
    }
}

/// Buffer bound: a base followed by a run of 33 mutually non-composable,
/// mutually blocked combining marks — one more than the lookback buffer's
/// fixed capacity of 32 — makes the machine hand out the overflow failure,
/// never a silent truncation and never a crash.
pub proof fn lemma_buffer_bound(o: OracleModel, b: char, ms: Seq<char>)
    requires
        cc_of(o, b) == 0,
        ms.len() == 33,
        cc_of(o, ms[0]) != 0,
        forall|i: int| 0 <= i < ms.len() ==> #[trigger] cc_of(o, ms[i]) == cc_of(o, ms[0]),
        forall|i: int| 0 <= i < ms.len() ==> compose_of(o, b, ms[i]) == None::<char>,
    ensures
        remaining(init_model(o, seq![Ok(b)] + ok_results(ms))).len() > 0,
        remaining(init_model(o, seq![Ok(b)] + ok_results(ms)))[0] == Err::<char, BufferOverflow>(
            BufferOverflow,
        ),
{
    let cls = cc_of(o, ms[0]);
    let m0 = init_model(o, seq![Ok(b)] + ok_results(ms));
    let s0 = RecModel { input: ok_results(ms), composee: Some(b), ..m0 };
    assert(m0.input[0] == Ok::<char, BufferOverflow>(b));
    assert(m0.input.drop_first() =~= ok_results(ms));
    assert(step(m0) == Step::Skip(s0));
    lemma_skip_step(m0, s0);
    let s1 = filled_state(o, b, ms, cls, 1);
    assert(s0.input[0] == Ok::<char, BufferOverflow>(ms[0]));
    assert(s0.input.drop_first() =~= ok_results(ms.skip(1)));
    assert(s0.buffer.push(ms[0]) =~= ms.take(1));
    assert(step(s0) == Step::Skip(s1));
    lemma_skip_step(s0, s1);
    lemma_fill(o, b, ms, cls, 1);
    let s32 = filled_state(o, b, ms, cls, 32);
    assert(s32.input.len() == 1);
    assert(s32.input[0] == Ok::<char, BufferOverflow>(ms[32]));
    assert(s32.buffer.len() == 32);
    let s33 = RecModel { input: ok_results(ms.skip(33)), ..s32 };
    assert(s32.input.drop_first() =~= ok_results(ms.skip(33)));
    assert(step(s32) == Step::Emit(Err(BufferOverflow), s33));
    lemma_emit_step(s32, s33, Err(BufferOverflow));
}

/// An empty input sequence yields an empty output sequence: the machine
/// reports end-of-sequence at the very first pull.
pub proof fn lemma_empty_input(o: OracleModel)
    ensures
        remaining(init_model(o, Seq::empty())) == Seq::<Result<char, BufferOverflow>>::empty(),
{
    let m0 = init_model(o, Seq::empty());
    let m1 = RecModel { state: RecompositionState::Finished(0), composee: None, ..m0 };
    assert(step(m0) == Step::Skip(m1));
    lemma_skip_step(m0, m1);
    assert(step(m1) == Step::Done);
    assert(remaining(m0) =~= Seq::<Result<char, BufferOverflow>>::empty());
}

/// A bare combining mark as the very first input — non-zero class with no
/// preceding base — is handed out immediately, unchanged, whatever follows.
pub proof fn lemma_bare_mark_first(o: OracleModel, c: char, rest: Seq<Result<char, BufferOverflow>>)
    requires
        cc_of(o, c) != 0,
    ensures
        remaining(init_model(o, seq![Ok(c)] + rest)) == seq![Ok::<char, BufferOverflow>(c)]
            + remaining(init_model(o, rest)),
{
    let m0 = init_model(o, seq![Ok(c)] + rest);
    let m1 = init_model(o, rest);
    assert(m0.input[0] == Ok::<char, BufferOverflow>(c));
    assert(m0.input.drop_first() =~= rest);
    assert(step(m0) == Step::Emit(Ok(c), m1));
    lemma_emit_step(m0, m1, Ok(c));
    assert(remaining(m0) =~= seq![Ok::<char, BufferOverflow>(c)] + remaining(m1));
}

/// A single character is recomposed to itself: a mark is handed out
/// directly, a base becomes the candidate and is handed out at the end.
pub proof fn lemma_singleton_unchanged(o: OracleModel, c: char)
    ensures
        remaining(init_model(o, seq![Ok(c)])) == seq![Ok::<char, BufferOverflow>(c)],
{
    let m0 = init_model(o, seq![Ok(c)]);
    if cc_of(o, c) != 0 {
        lemma_bare_mark_first(o, c, Seq::empty());
        lemma_empty_input(o);
        assert(seq![Ok::<char, BufferOverflow>(c)] + Seq::empty() =~= seq![
            Ok::<char, BufferOverflow>(c),
        ]);
        assert(m0.input =~= seq![Ok::<char, BufferOverflow>(c)] + Seq::<
            Result<char, BufferOverflow>,
        >::empty());
    } else {
        let m1 = RecModel { input: Seq::empty(), composee: Some(c), ..m0 };
        assert(m0.input.drop_first() =~= Seq::<Result<char, BufferOverflow>>::empty());
        assert(step(m0) == Step::Skip(m1));
        lemma_skip_step(m0, m1);
        let m2 = RecModel { state: RecompositionState::Finished(0), composee: None, ..m1 };
        assert(step(m1) == Step::Emit(Ok(c), m2));
        lemma_emit_step(m1, m2, Ok(c));
        assert(step(m2) == Step::Done);
        assert(remaining(m2) =~= Seq::<Result<char, BufferOverflow>>::empty());
        assert(remaining(m0) =~= seq![Ok::<char, BufferOverflow>(c)]);
    }
}

/// Ordered input of a base and one mark whose pair composes: the machine
/// hands out exactly the composed character.
pub proof fn lemma_composable_pair(o: OracleModel, e: char, m: char, c: char)
    requires
        cc_of(o, e) == 0,
        compose_of(o, e, m) == Some(c),
    ensures
        remaining(init_model(o, seq![Ok(e), Ok(m)])) == seq![Ok::<char, BufferOverflow>(c)],
{
    let m0 = init_model(o, seq![Ok(e), Ok(m)]);
    let m1 = RecModel { input: seq![Ok(m)], composee: Some(e), ..m0 };
    assert(m0.input.drop_first() =~= seq![Ok::<char, BufferOverflow>(m)]);
    assert(step(m0) == Step::Skip(m1));
    lemma_skip_step(m0, m1);
    let m2 = RecModel { input: Seq::empty(), composee: Some(c), ..m1 };
    assert(m1.input.drop_first() =~= Seq::<Result<char, BufferOverflow>>::empty());
    assert(step(m1) == Step::Skip(m2));
    lemma_skip_step(m1, m2);
    let m3 = RecModel { state: RecompositionState::Finished(0), composee: None, ..m2 };
    assert(step(m2) == Step::Emit(Ok(c), m3));
    lemma_emit_step(m2, m3, Ok(c));
    assert(step(m3) == Step::Done);
    assert(remaining(m3) =~= Seq::<Result<char, BufferOverflow>>::empty());
    assert(remaining(m0) =~= seq![Ok::<char, BufferOverflow>(c)]);
}

/// Ordered input of a base and one non-composing mark of non-zero class:
/// the mark is buffered and flushed at the end, so both come out unchanged
/// and in order.
pub proof fn lemma_uncomposable_pair(o: OracleModel, e: char, g: char)
    requires
        cc_of(o, e) == 0,
        cc_of(o, g) != 0,
        compose_of(o, e, g) == None::<char>,
    ensures
        remaining(init_model(o, seq![Ok(e), Ok(g)])) == seq![
            Ok::<char, BufferOverflow>(e),
            Ok::<char, BufferOverflow>(g),
        ],
{
    let m0 = init_model(o, seq![Ok(e), Ok(g)]);
    let m1 = RecModel { input: seq![Ok(g)], composee: Some(e), ..m0 };
    assert(m0.input.drop_first() =~= seq![Ok::<char, BufferOverflow>(g)]);
    assert(step(m0) == Step::Skip(m1));
    lemma_skip_step(m0, m1);
    let m2 = RecModel {
        input: Seq::empty(),
        buffer: seq![g],
        last_ccc: Some(cc_of(o, g)),
        ..m1
    };
    assert(m1.input.drop_first() =~= Seq::<Result<char, BufferOverflow>>::empty());
    assert(m1.buffer.push(g) =~= seq![g]);
    assert(step(m1) == Step::Skip(m2));
    lemma_skip_step(m1, m2);
    let m3 = RecModel { state: RecompositionState::Finished(0), composee: None, ..m2 };
    assert(step(m2) == Step::Emit(Ok(e), m3));
    lemma_emit_step(m2, m3, Ok(e));
    let m4 = RecModel { state: RecompositionState::Finished(1), ..m3 };
    assert(step(m3) == Step::Emit(Ok(g), m4));
    lemma_emit_step(m3, m4, Ok(g));
    assert(step(m4) == Step::Done);
    assert(remaining(m4) =~= Seq::<Result<char, BufferOverflow>>::empty());
    assert(remaining(m0) =~= seq![Ok::<char, BufferOverflow>(e), Ok::<char, BufferOverflow>(g)]);
}

/// Blocking-rule correctness: a base followed by two marks of equal
/// combining class, the base composing with neither, hands out all three
/// unchanged and in their original order — never reordered, never dropped.
pub proof fn lemma_blocking_preserves_marks(o: OracleModel, b: char, m1c: char, m2c: char)
    requires
        cc_of(o, b) == 0,
        cc_of(o, m1c) != 0,
        cc_of(o, m2c) == cc_of(o, m1c),
        compose_of(o, b, m1c) == None::<char>,
        compose_of(o, b, m2c) == None::<char>,
    ensures
        remaining(init_model(o, seq![Ok(b), Ok(m1c), Ok(m2c)])) == seq![
            Ok::<char, BufferOverflow>(b),
            Ok::<char, BufferOverflow>(m1c),
            Ok::<char, BufferOverflow>(m2c),
        ],
{
    let m0 = init_model(o, seq![Ok(b), Ok(m1c), Ok(m2c)]);
    let s1 = RecModel { input: seq![Ok(m1c), Ok(m2c)], composee: Some(b), ..m0 };
    assert(m0.input.drop_first() =~= seq![
        Ok::<char, BufferOverflow>(m1c),
        Ok::<char, BufferOverflow>(m2c),
    ]);
    assert(step(m0) == Step::Skip(s1));
    lemma_skip_step(m0, s1);
    let s2 = RecModel {
        input: seq![Ok(m2c)],
        buffer: seq![m1c],
        last_ccc: Some(cc_of(o, m1c)),
        ..s1
    };
    assert(s1.input.drop_first() =~= seq![Ok::<char, BufferOverflow>(m2c)]);
    assert(s1.buffer.push(m1c) =~= seq![m1c]);
    assert(step(s1) == Step::Skip(s2));
    lemma_skip_step(s1, s2);
    let s3 = RecModel {
        input: Seq::empty(),
        buffer: seq![m1c, m2c],
        last_ccc: Some(cc_of(o, m2c)),
        ..s2
    };
    assert(s2.input.drop_first() =~= Seq::<Result<char, BufferOverflow>>::empty());
    assert(s2.buffer.push(m2c) =~= seq![m1c, m2c]);
    assert(step(s2) == Step::Skip(s3));
    lemma_skip_step(s2, s3);
    let s4 = RecModel { state: RecompositionState::Finished(0), composee: None, ..s3 };
    assert(step(s3) == Step::Emit(Ok(b), s4));
    lemma_emit_step(s3, s4, Ok(b));
    let s5 = RecModel { state: RecompositionState::Finished(1), ..s4 };
    assert(step(s4) == Step::Emit(Ok(m1c), s5));
    lemma_emit_step(s4, s5, Ok(m1c));
    let s6 = RecModel { state: RecompositionState::Finished(2), ..s5 };
    assert(step(s5) == Step::Emit(Ok(m2c), s6));
    lemma_emit_step(s5, s6, Ok(m2c));
    assert(step(s6) == Step::Done);
    assert(remaining(s6) =~= Seq::<Result<char, BufferOverflow>>::empty());
    assert(remaining(m0) =~= seq![
        Ok::<char, BufferOverflow>(b),
        Ok::<char, BufferOverflow>(m1c),
        Ok::<char, BufferOverflow>(m2c),
    ]);
}

} // verus!
