use vstd::prelude::*;

use crate::recompose::{remaining, Recompositions};
use crate::text::{all_ok, lemma_ok_results, ok_chars, ok_results};
use crate::BufferOverflow;

verus! {

/// A generic append-only text sink, for callers to implement. Whether a
/// character is taken is decided by the sink's state alone: an accepted
/// character extends what the sink has sunk, a refused one leaves the
/// sink exactly as it was, and refusal surfaces as the rendering failure.
pub trait CharSink {
    /// The characters the sink has accepted so far, in order.
    spec fn sunk(&self) -> Seq<char>;

    /// Whether the sink, in its current state, takes `c`.
    spec fn accepts(&self, c: char) -> bool;

    /// Appends one character, or refuses it.
    fn put(&mut self, c: char) -> (r: Result<(), BufferOverflow>)
        ensures
            r is Ok <==> old(self).accepts(c),
            r is Ok ==> final(self).sunk() == old(self).sunk().push(c),
            r is Err ==> final(self).sunk() == old(self).sunk() && final(self).accepts(c)
                == old(self).accepts(c),
    ;
}

/// An unbounded in-memory sink that accepts every character.
pub struct VecSink {
    pub chars: Vec<char>,
}

impl VecSink {
    /// An empty sink.
    pub fn new() -> (r: VecSink)
        ensures
            r.sunk() == Seq::<char>::empty(),
    {
        let r = VecSink { chars: Vec::new() };
        proof {
            assert(r.sunk() =~= Seq::<char>::empty());
        }
        r
    }
}

impl CharSink for VecSink {
    open spec fn sunk(&self) -> Seq<char> {
        self.chars@
    }

    open spec fn accepts(&self, c: char) -> bool {
        true
    }

    fn put(&mut self, c: char) -> (r: Result<(), BufferOverflow>)
        ensures
            r is Ok,
            final(self).sunk() == old(self).sunk().push(c),
    {
        self.chars.push(c);
        Ok(())
    }
}

impl Recompositions {
    /// Drains a fresh duplicate of the sequence into a text sink, one
    /// character at a time — no intermediate buffer. On success the sink
    /// has taken in exactly the recomposed characters, appended to what it
    /// held. An overflow owed by the machine forces failure; an empty
    /// failure-free output forces success. However the call ends, the
    /// sink holds a prefix of the recomposed characters and nothing else;
    /// and a failure on failure-free output means the run stopped exactly
    /// at a character the sink refused.
    pub fn render_to<S: CharSink>(&self, sink: &mut S) -> (r: Result<(), BufferOverflow>)
        requires
            self.wf(),
        ensures
            ({
                let out = remaining(self@);
                &&& r is Ok ==> all_ok(out) && final(sink).sunk() == old(sink).sunk() + ok_chars(
                    out,
                )
                &&& all_ok(out) && ok_chars(out).len() == 0 ==> r is Ok
                &&& !all_ok(out) ==> r is Err
                &&& exists|j: int|
                    0 <= j <= ok_chars(out).len() && final(sink).sunk() == old(sink).sunk()
                        + ok_chars(out).take(j)
                &&& r is Err ==> !all_ok(out) || (exists|j: int|
                    0 <= j < ok_chars(out).len() && final(sink).sunk() == old(sink).sunk()
                        + ok_chars(out).take(j) && !final(sink).accepts(ok_chars(out)[j]))
            }),
    {
        let mut d = self.duplicate();
        let ghost mut cs: Seq<char> = Seq::empty();
        proof {
            assert(remaining(self@) =~= ok_results(cs) + remaining(d@));
            assert(old(sink).sunk() + cs =~= old(sink).sunk());
        }
        loop
            invariant
                d.wf(),
                remaining(self@) == ok_results(cs) + remaining(d@),
                sink.sunk() == old(sink).sunk() + cs,
            decreases remaining(d@).len(),
        {
            let ghost d_pre = d@;
            let ghost cs_pre = cs;
            match d.next() {
                None => {
                    proof {
                        assert(remaining(self@) =~= ok_results(cs));
                        lemma_ok_results(cs);
                        assert(ok_chars(remaining(self@)).take(
                            ok_chars(remaining(self@)).len() as int,
                        ) =~= cs);
                    }
                    return Ok(());
                },
                Some(e) => {
                    proof {
                        assert(remaining(d_pre) =~= seq![e] + remaining(d@));
                    }
                    match e {
                        Ok(c) => {
                            match sink.put(c) {
                                Ok(_) => {
                                    proof {
                                        cs = cs_pre.push(c);
                                        assert(sink.sunk() =~= old(sink).sunk() + cs);
                                        assert(ok_results(cs) + remaining(d@) =~= ok_results(
                                            cs_pre,
                                        ) + remaining(d_pre));
                                    }
                                },
                                Err(err) => {
                                    proof {
                                        let out = remaining(self@);
                                        assert(out[cs_pre.len() as int] == Ok::<
                                            char,
                                            BufferOverflow,
                                        >(c));
                                        assert(ok_chars(out)[cs_pre.len() as int] == c);
                                        assert(ok_chars(out).take(cs_pre.len() as int) =~= cs_pre);
                                        assert(sink.sunk() == old(sink).sunk() + ok_chars(
                                            out,
                                        ).take(cs_pre.len() as int));
                                        assert(!sink.accepts(c));
                                    }
                                    return Err(err);
                                },
                            }
                        },
                        Err(err) => {
                            proof {
                                let out = remaining(self@);
                                assert(out[cs_pre.len() as int] == Err::<char, BufferOverflow>(
                                    err,
                                ));
                                assert(!all_ok(out));
                                assert(ok_chars(out).take(cs_pre.len() as int) =~= cs_pre);
                                assert(sink.sunk() == old(sink).sunk() + ok_chars(out).take(
                                    cs_pre.len() as int,
                                ));
                            }
                            return Err(err);
                        },
                    }
                },
            }
        }
    }
}

} // verus!
