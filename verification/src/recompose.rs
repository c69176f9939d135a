use vstd::prelude::*;

use crate::buffer::{buf_clear, buf_clone, buf_get, buf_new, buf_push, buf_view};
use crate::oracle::{cc_of, compose_of, Oracle, OracleModel};
use crate::BufferOverflow;

verus! {

/// Where the state machine stands: accumulating a composition candidate,
/// draining the lookback buffer before composition resumes, or draining
/// it for the last time after the upstream ended. The payload is the
/// drain cursor, counted from the buffer's front.
#[derive(Clone, Copy, Debug, PartialEq, Eq, Structural)]
pub enum RecompositionState {
    Composing,
    Purging(usize),
    Finished(usize),
}

/// Mathematical view of a recomposition machine: the oracle's tables, the
/// upstream elements not yet pulled, and the machine's own fields, with
/// the lookback buffer as the sequence of characters it holds.
#[verifier::ext_equal]
pub struct RecModel {
    pub oracle: OracleModel,
    pub input: Seq<Result<char, BufferOverflow>>,
    pub state: RecompositionState,
    pub buffer: Seq<char>,
    pub composee: Option<char>,
    pub last_ccc: Option<u8>,
}

/// One transition of the machine: an element handed out together with the
/// successor state, an internal move with no output, or end-of-sequence.
#[verifier::ext_equal]
pub enum Step {
    Emit(Result<char, BufferOverflow>, RecModel),
    Skip(RecModel),
    Done,
}

/// The machine as first built: bound to `input`, in `Composing`, with an
/// empty lookback buffer, no candidate and no last-seen class.
pub open spec fn init_model(o: OracleModel, input: Seq<Result<char, BufferOverflow>>) -> RecModel {
    RecModel {
        oracle: o,
        input,
        state: RecompositionState::Composing,
        buffer: Seq::empty(),
        composee: None,
        last_ccc: None,
    }
}

/// One `Composing` transition, given the head of the remaining upstream:
/// upstream failures pass through unchanged; a characterless machine adopts
/// a base and emits a bare mark; a held candidate composes, is emitted
/// before a new base, or sees the arriving mark buffered, subject to the
/// blocking rule and the buffer's fixed capacity of 32.
pub open spec fn step_composing(m: RecModel) -> Step {
    if m.input.len() == 0 {
        let m2 = RecModel { state: RecompositionState::Finished(0), composee: None, ..m };
        match m.composee {
            Some(k) => Step::Emit(Ok(k), m2),
            None => Step::Skip(m2),
        }
    } else {
        let rest = m.input.drop_first();
        match m.input[0] {
            Err(e) => Step::Emit(Err(e), RecModel { input: rest, ..m }),
            Ok(ch) => {
                let cls = cc_of(m.oracle, ch);
                match m.composee {
                    None => if cls != 0 {
                        Step::Emit(Ok(ch), RecModel { input: rest, ..m })
                    } else {
                        Step::Skip(RecModel { input: rest, composee: Some(ch), ..m })
                    },
                    Some(k) => {
                        let blocked = match m.last_ccc {
                            Some(l) => l >= cls,
                            None => false,
                        };
                        if blocked && cls == 0 {
                            Step::Emit(
                                Ok(k),
                                RecModel {
                                    input: rest,
                                    composee: Some(ch),
                                    last_ccc: None,
                                    state: RecompositionState::Purging(0),
                                    ..m
                                },
                            )
                        } else if blocked {
                            step_buffering(m, rest, ch, cls)
                        } else {
                            match compose_of(m.oracle, k, ch) {
                                Some(r) => Step::Skip(
                                    RecModel { input: rest, composee: Some(r), ..m },
                                ),
                                None => if m.last_ccc is None && cls == 0 {
                                    Step::Emit(
                                        Ok(k),
                                        RecModel { input: rest, composee: Some(ch), ..m },
                                    )
                                } else {
                                    step_buffering(m, rest, ch, cls)
                                },
                            }
                        }
                    },
                }
            },
        }
    }
}

/// Pushing the arriving mark onto the lookback buffer: beyond the fixed
/// capacity of 32 the mark is lost and the overflow failure is emitted;
/// otherwise the mark is appended and its class recorded as last seen.
pub open spec fn step_buffering(m: RecModel, rest: Seq<Result<char, BufferOverflow>>, ch: char, cls: u8) -> Step {
    if m.buffer.len() >= 32 {
        Step::Emit(Err(BufferOverflow), RecModel { input: rest, ..m })
    } else {
        Step::Skip(
            RecModel { input: rest, buffer: m.buffer.push(ch), last_ccc: Some(cls), ..m },
        )
    }
}

/// One `Purging` transition: the buffer is handed out front to back,
/// verbatim; past its end it is cleared and composition resumes.
pub open spec fn step_purging(m: RecModel, i: usize) -> Step {
    if (i as int) < m.buffer.len() {
        Step::Emit(
            Ok(m.buffer[i as int]),
            RecModel { state: RecompositionState::Purging((i + 1) as usize), ..m },
        )
    } else {
        Step::Skip(
            RecModel { buffer: Seq::empty(), state: RecompositionState::Composing, ..m },
        )
    }
}

/// One `Finished` transition: the buffer is handed out front to back; past
/// its end it is cleared, a still-held candidate is emitted exactly once,
/// and thereafter the machine reports end-of-sequence forever.
pub open spec fn step_finished(m: RecModel, i: usize) -> Step {
    if (i as int) < m.buffer.len() {
        Step::Emit(
            Ok(m.buffer[i as int]),
            RecModel { state: RecompositionState::Finished((i + 1) as usize), ..m },
        )
    } else {
        match m.composee {
            Some(k) => Step::Emit(Ok(k), RecModel { buffer: Seq::empty(), composee: None, ..m }),
            None => Step::Done,
        }
    }
}

/// The machine's transition function, by state.
pub open spec fn step(m: RecModel) -> Step {
    match m.state {
        RecompositionState::Composing => step_composing(m),
        RecompositionState::Purging(i) => step_purging(m, i),
        RecompositionState::Finished(i) => step_finished(m, i),
    }
}

/// Termination measure for [`remaining`]: every transition either consumes
/// an upstream element or strictly shrinks the work left in the current
/// drain or hand-over.
pub open spec fn state_measure(m: RecModel) -> int {
    let blen: int = m.buffer.len() as int;
    let cnt: int = if m.composee is Some {
        1
    } else {
        0
    };
    match m.state {
        RecompositionState::Composing => 2 + blen + cnt,
        RecompositionState::Purging(i) => 4 + (if (i as int) < blen {
            blen - i
        } else {
            0
        }),
        RecompositionState::Finished(i) => (if (i as int) < blen {
            blen - i
        } else {
            0
        }) + cnt,
    }
}

pub open spec fn measure(m: RecModel) -> int {
    4 * (m.input.len() as int) + state_measure(m)
}

/// Everything the machine will ever hand out from state `m`, in order:
/// the machine's complete observable behaviour under repeated pulls.
/// It is specified for the states a machine can actually stand in, whose
/// lookback buffer never exceeds its fixed capacity of 32.
pub open spec fn remaining(m: RecModel) -> Seq<Result<char, BufferOverflow>>
    decreases measure(m),
        when m.buffer.len() <= 32
{
    match step(m) {
        Step::Done => Seq::empty(),
        Step::Emit(e, m2) => seq![e] + remaining(m2),
        Step::Skip(m2) => remaining(m2),
    }
}

/// An internal move leaves the machine's future output unchanged.
pub proof fn lemma_skip_step(m1: RecModel, m2: RecModel)
    requires
        m1.buffer.len() <= 32,
        step(m1) == Step::Skip(m2),
    ensures
        remaining(m1) == remaining(m2),
        measure(m2) < measure(m1),
{
}

/// An emitting move hands out the head of the future output; the successor
/// state owes exactly the tail.
pub proof fn lemma_emit_step(m1: RecModel, m2: RecModel, e: Result<char, BufferOverflow>)
    requires
        m1.buffer.len() <= 32,
        step(m1) == Step::Emit(e, m2),
    ensures
        remaining(m1).len() > 0,
        remaining(m1)[0] == e,
        remaining(m1).drop_first() == remaining(m2),
        measure(m2) < measure(m1),
{
    assert(remaining(m1) == seq![e] + remaining(m2));
    assert((seq![e] + remaining(m2)).drop_first() =~= remaining(m2));
}

/// Helper facts about consuming the head of the not-yet-pulled upstream.
proof fn lemma_skip_one(s: Seq<Result<char, BufferOverflow>>, i: int)
    requires
        0 <= i < s.len(),
    ensures
        s.skip(i).len() == s.len() - i,
        s.skip(i)[0] == s[i],
        s.skip(i).drop_first() =~= s.skip(i + 1),
{
}

/// The recomposition state machine: a pull-driven producer of recomposed
/// characters. It is bound to an already-decomposed, canonically ordered
/// upstream sequence whose elements are characters or overflow failures,
/// consults the oracle's tables, and hands out one element per pull:
/// a character, the overflow failure, or end-of-sequence (`None`).
pub struct Recompositions {
    oracle: Oracle,
    input: Vec<Result<char, BufferOverflow>>,
    pos: usize,
    state: RecompositionState,
    buffer: heapless::Vec<char, 32>,
    composee: Option<char>,
    last_ccc: Option<u8>,
}

impl View for Recompositions {
    type V = RecModel;

    closed spec fn view(&self) -> RecModel {
        RecModel {
            oracle: self.oracle@,
            input: self.input@.skip(self.pos as int),
            state: self.state,
            buffer: buf_view(self.buffer),
            composee: self.composee,
            last_ccc: self.last_ccc,
        }
    }
}

impl Recompositions {
    /// The machine's structural invariant: the pull position lies within
    /// the stored upstream, and the lookback buffer is within its fixed
    /// capacity. Every constructor establishes it and every method keeps it.
    pub closed spec fn wf(self) -> bool {
        &&& self.pos <= self.input@.len()
        &&& buf_view(self.buffer).len() <= 32
    }

    /// One pull: the next element the machine owes, or `None` once it owes
    /// nothing — and from then on it owes nothing forever.
    pub fn next(&mut self) -> (r: Option<Result<char, BufferOverflow>>)
        requires
            old(self).wf(),
        ensures
            final(self).wf(),
            final(self)@.oracle == old(self)@.oracle,
            ({
                let before = remaining(old(self)@);
                let after = remaining(final(self)@);
                match r {
                    None => before.len() == 0 && after.len() == 0,
                    Some(e) => before.len() > 0 && e == before[0] && after == before.drop_first(),
                }
            }),
    {
        loop
            invariant
                self.wf(),
                self@.oracle == old(self)@.oracle,
                remaining(self@) == remaining(old(self)@),
            decreases measure(self@),
        {
            let ghost m_pre = self@;
            match self.state {
                RecompositionState::Composing => {
                    if self.pos >= self.input.len() {
                        proof {
                            assert(m_pre.input =~= Seq::<Result<char, BufferOverflow>>::empty());
                        }
                        self.state = RecompositionState::Finished(0);
                        match self.composee {
                            Some(k) => {
                                self.composee = None;
                                proof {
                                    assert(self@ =~= (RecModel {
                                        state: RecompositionState::Finished(0),
                                        composee: None,
                                        ..m_pre
                                    }));
                                    lemma_emit_step(m_pre, self@, Ok(k));
                                }
                                return Some(Ok(k));
                            },
                            None => {
                                proof {
                                    assert(self@ =~= (RecModel {
                                        state: RecompositionState::Finished(0),
                                        composee: None,
                                        ..m_pre
                                    }));
                                    lemma_skip_step(m_pre, self@);
                                }
                            },
                        }
                    } else {
                        let e = self.input[self.pos];
                        let ghost p0 = self.pos as int;
                        self.pos = self.pos + 1;
                        proof {
                            lemma_skip_one(self.input@, p0);
                        }
                        match e {
                            Err(err) => {
                                proof {
                                    assert(self@ =~= (RecModel {
                                        input: m_pre.input.drop_first(),
                                        ..m_pre
                                    }));
                                    lemma_emit_step(m_pre, self@, Err(err));
                                }
                                return Some(Err(err));
                            },
                            Ok(ch) => {
                                let cls = self.oracle.combining_class(ch);
                                match self.composee {
                                    None => {
                                        if cls != 0 {
                                            proof {
                                                assert(self@ =~= (RecModel {
                                                    input: m_pre.input.drop_first(),
                                                    ..m_pre
                                                }));
                                                lemma_emit_step(m_pre, self@, Ok(ch));
                                            }
                                            return Some(Ok(ch));
                                        } else {
                                            self.composee = Some(ch);
                                            proof {
                                                assert(self@ =~= (RecModel {
                                                    input: m_pre.input.drop_first(),
                                                    composee: Some(ch),
                                                    ..m_pre
                                                }));
                                                lemma_skip_step(m_pre, self@);
                                            }
                                        }
                                    },
                                    Some(k) => {
                                        let blocked = match self.last_ccc {
                                            Some(l) => l >= cls,
                                            None => false,
                                        };
                                        if blocked && cls == 0 {
                                            self.composee = Some(ch);
                                            self.last_ccc = None;
                                            self.state = RecompositionState::Purging(0);
                                            proof {
                                                assert(self@ =~= (RecModel {
                                                    input: m_pre.input.drop_first(),
                                                    composee: Some(ch),
                                                    last_ccc: None,
                                                    state: RecompositionState::Purging(0),
                                                    ..m_pre
                                                }));
                                                lemma_emit_step(m_pre, self@, Ok(k));
                                            }
                                            return Some(Ok(k));
                                        } else if blocked {
                                            match buf_push(&mut self.buffer, ch) {
                                                Ok(_) => {
                                                    self.last_ccc = Some(cls);
                                                    proof {
                                                        assert(self@ =~= (RecModel {
                                                            input: m_pre.input.drop_first(),
                                                            buffer: m_pre.buffer.push(ch),
                                                            last_ccc: Some(cls),
                                                            ..m_pre
                                                        }));
                                                        lemma_skip_step(m_pre, self@);
                                                    }
                                                },
                                                Err(_) => {
                                                    proof {
                                                        assert(self@ =~= (RecModel {
                                                            input: m_pre.input.drop_first(),
                                                            ..m_pre
                                                        }));
                                                        lemma_emit_step(
                                                            m_pre,
                                                            self@,
                                                            Err(BufferOverflow),
                                                        );
                                                    }
                                                    return Some(Err(BufferOverflow));
                                                },
                                            }
                                        } else {
                                            match self.oracle.compose(k, ch) {
                                                Some(rc) => {
                                                    self.composee = Some(rc);
                                                    proof {
                                                        assert(self@ =~= (RecModel {
                                                            input: m_pre.input.drop_first(),
                                                            composee: Some(rc),
                                                            ..m_pre
                                                        }));
                                                        lemma_skip_step(m_pre, self@);
                                                    }
                                                },
                                                None => {
                                                    if self.last_ccc.is_none() && cls == 0 {
                                                        self.composee = Some(ch);
                                                        proof {
                                                            assert(self@ =~= (RecModel {
                                                                input: m_pre.input.drop_first(),
                                                                composee: Some(ch),
                                                                ..m_pre
                                                            }));
                                                            lemma_emit_step(m_pre, self@, Ok(k));
                                                        }
                                                        return Some(Ok(k));
                                                    } else {
                                                        match buf_push(&mut self.buffer, ch) {
                                                            Ok(_) => {
                                                                self.last_ccc = Some(cls);
                                                                proof {
                                                                    assert(self@ =~= (RecModel {
                                                                        input:
                                                                            m_pre.input.drop_first(),
                                                                        buffer: m_pre.buffer.push(
                                                                            ch,
                                                                        ),
                                                                        last_ccc: Some(cls),
                                                                        ..m_pre
                                                                    }));
                                                                    lemma_skip_step(m_pre, self@);
                                                                }
                                                            },
                                                            Err(_) => {
                                                                proof {
                                                                    assert(self@ =~= (RecModel {
                                                                        input:
                                                                            m_pre.input.drop_first(),
                                                                        ..m_pre
                                                                    }));
                                                                    lemma_emit_step(
                                                                        m_pre,
                                                                        self@,
                                                                        Err(BufferOverflow),
                                                                    );
                                                                }
                                                                return Some(Err(BufferOverflow));
                                                            },
                                                        }
                                                    }
                                                },
                                            }
                                        }
                                    },
                                }
                            },
                        }
                    }
                },
                RecompositionState::Purging(i) => {
                    match buf_get(&self.buffer, i) {
                        Some(c) => {
                            self.state = RecompositionState::Purging(i + 1);
                            proof {
                                assert(self@ =~= (RecModel {
                                    state: RecompositionState::Purging((i + 1) as usize),
                                    ..m_pre
                                }));
                                lemma_emit_step(m_pre, self@, Ok(c));
                            }
                            return Some(Ok(c));
                        },
                        None => {
                            buf_clear(&mut self.buffer);
                            self.state = RecompositionState::Composing;
                            proof {
                                assert(self@ =~= (RecModel {
                                    buffer: Seq::empty(),
                                    state: RecompositionState::Composing,
                                    ..m_pre
                                }));
                                lemma_skip_step(m_pre, self@);
                            }
                        },
                    }
                },
                RecompositionState::Finished(i) => {
                    match buf_get(&self.buffer, i) {
                        Some(c) => {
                            self.state = RecompositionState::Finished(i + 1);
                            proof {
                                assert(self@ =~= (RecModel {
                                    state: RecompositionState::Finished((i + 1) as usize),
                                    ..m_pre
                                }));
                                lemma_emit_step(m_pre, self@, Ok(c));
                            }
                            return Some(Ok(c));
                        },
                        None => {
                            buf_clear(&mut self.buffer);
                            match self.composee {
                                Some(k) => {
                                    self.composee = None;
                                    proof {
                                        assert(self@ =~= (RecModel {
                                            buffer: Seq::empty(),
                                            composee: None,
                                            ..m_pre
                                        }));
                                        lemma_emit_step(m_pre, self@, Ok(k));
                                    }
                                    return Some(Ok(k));
                                },
                                None => {
                                    proof {
                                        assert(step(m_pre) == Step::Done);
                                        assert(remaining(m_pre) == Seq::<
                                            Result<char, BufferOverflow>,
                                        >::empty());
                                        assert(step(self@) == Step::Done);
                                        assert(remaining(self@) == Seq::<
                                            Result<char, BufferOverflow>,
                                        >::empty());
                                    }
                                    return None;
                                },
                            }
                        },
                    }
                },
            }
        }
    }
}

impl Recompositions {
    /// Non-destructive duplication: an independent machine in the same
    /// state, owning its own copy of the upstream, the oracle's tables,
    /// the candidate, the last-seen class and the lookback buffer, with
    /// no mutable backing shared between the two.
    pub fn duplicate(&self) -> (r: Recompositions)
        requires
            self.wf(),
        ensures
            r.wf(),
            r@ == self@,
    {
        let mut rest: Vec<Result<char, BufferOverflow>> = Vec::new();
        let mut i: usize = self.pos;
        proof {
            assert(rest@ =~= self.input@.subrange(self.pos as int, self.pos as int));
        }
        while i < self.input.len()
            invariant
                self.pos <= i <= self.input@.len(),
                rest@ == self.input@.subrange(self.pos as int, i as int),
            decreases self.input@.len() - i,
        {
            rest.push(self.input[i]);
            proof {
                assert(rest@ =~= self.input@.subrange(self.pos as int, i + 1));
            }
            i = i + 1;
        }
        let r = Recompositions {
            oracle: self.oracle.duplicate(),
            input: rest,
            pos: 0,
            state: self.state,
            buffer: buf_clone(&self.buffer),
            composee: self.composee,
            last_ccc: self.last_ccc,
        };
        proof {
            assert(r.input@.skip(0) =~= self.input@.skip(self.pos as int));
            assert(r@ =~= self@);
        }
        r
    }
}

/// Builds a recomposition machine over a canonically decomposed, canonically
/// ordered upstream sequence, consulting the given oracle.
pub fn new_canonical(oracle: Oracle, input: Vec<Result<char, BufferOverflow>>) -> (r: Recompositions)
    ensures
        r.wf(),
        r@ == init_model(oracle@, input@),
{
    let r = Recompositions {
        oracle,
        input,
        pos: 0,
        state: RecompositionState::Composing,
        buffer: buf_new(),
        composee: None,
        last_ccc: None,
    };
    proof {
        assert(r@ =~= init_model(r.oracle@, r.input@));
    }
    r
}

/// Builds a recomposition machine over a compatibility-decomposed,
/// canonically ordered upstream sequence, consulting the given oracle.
/// The machine itself is the same as the canonical one: which decomposition
/// the upstream applied is the upstream's affair.
pub fn new_compatible(oracle: Oracle, input: Vec<Result<char, BufferOverflow>>) -> (r: Recompositions)
    ensures
        r.wf(),
        r@ == init_model(oracle@, input@),
{
    let r = Recompositions {
        oracle,
        input,
        pos: 0,
        state: RecompositionState::Composing,
        buffer: buf_new(),
        composee: None,
        last_ccc: None,
    };
    proof {
        assert(r@ =~= init_model(r.oracle@, r.input@));
    }
    r
}

} // verus!
