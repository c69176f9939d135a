use vstd::prelude::*;

use crate::recompose::{remaining, Recompositions};
use crate::BufferOverflow;

verus! {

/// Whether every element a machine owes is a character — no overflow
/// failure anywhere in its future output.
pub open spec fn all_ok(s: Seq<Result<char, BufferOverflow>>) -> bool {
    forall|i: int| 0 <= i < s.len() ==> s[i] is Ok
}

/// The characters of an all-`Ok` output, in order.
pub open spec fn ok_chars(s: Seq<Result<char, BufferOverflow>>) -> Seq<char> {
    s.map_values(|e: Result<char, BufferOverflow>| e->Ok_0)
}

/// A character sequence seen as machine output: every element a success.
pub open spec fn ok_results(s: Seq<char>) -> Seq<Result<char, BufferOverflow>> {
    s.map_values(|c: char| Ok::<char, BufferOverflow>(c))
}

pub(crate) proof fn lemma_ok_results(s: Seq<char>)
    ensures
        all_ok(ok_results(s)),
        ok_chars(ok_results(s)) == s,
{
    assert(ok_chars(ok_results(s)) =~= s);
}

/// How many bytes UTF-8 spends on `c`.
pub open spec fn utf8_len(c: char) -> int {
    if (c as u32) < 0x80 {
        1
    } else if (c as u32) < 0x800 {
        2
    } else if (c as u32) < 0x10000 {
        3
    } else {
        4
    }
}

/// How many bytes UTF-8 spends on the characters of `s` together.
pub open spec fn utf8_len_seq(s: Seq<char>) -> int
    decreases s.len(),
{
    if s.len() == 0 {
        0
    } else {
        utf8_len_seq(s.drop_last()) + utf8_len(s.last())
    }
}

/// A prefix never spends more bytes than the whole sequence.
proof fn lemma_utf8_prefix(s: Seq<char>, j: int)
    requires
        0 <= j <= s.len(),
    ensures
        utf8_len_seq(s.take(j)) <= utf8_len_seq(s),
    decreases s.len() - j,
{
    if j == s.len() {
        assert(s.take(j) =~= s);
    } else {
        assert(s.take(j + 1).drop_last() =~= s.take(j));
        assert(s.take(j + 1).last() == s[j]);
        lemma_utf8_prefix(s, j + 1);
    }
}

fn utf8_len_of(c: char) -> (r: usize)
    ensures
        r as int == utf8_len(c),
{
    let u = c as u32;
    if u < 0x80 {
        1
    } else if u < 0x800 {
        2
    } else if u < 0x10000 {
        3
    } else {
        4
    }
}

/// Declares `heapless::String` so that the capacity-bounded destination
/// text buffer can stand in verified signatures; values of it are opaque
/// to the verifier.
#[verifier::external_type_specification]
#[verifier::external_body]
pub struct ExHeaplessString<const N: usize>(heapless::String<N>);

/// A destination text buffer of fixed byte capacity `N`: a
/// [`heapless::String`] carried beside its ghost character view. The
/// trusted operations below keep the two in step, so contracts can speak
/// of the text a value holds.
pub struct BoundedText<const N: usize> {
    text: heapless::String<N>,
    view: Ghost<Seq<char>>,
}

/// Relies on heapless::String::new: the string starts empty.
#[verifier::external_body]
fn hstring_new<const N: usize>() -> heapless::String<N> {
    heapless::String::new()
}

impl<const N: usize> BoundedText<N> {
    /// The characters the text holds, in order.
    pub closed spec fn chars(self) -> Seq<char> {
        self.view@
    }

    /// An empty text.
    pub fn new() -> (r: BoundedText<N>)
        ensures
            r.chars() == Seq::<char>::empty(),
    {
        BoundedText { text: hstring_new(), view: Ghost(Seq::empty()) }
    }

    /// Relies on heapless::String::push: appends the character's UTF-8
    /// bytes, which fit exactly because `requires` keeps the total UTF-8
    /// length within the byte capacity `N`.
    #[verifier::external_body]
    pub fn push(&mut self, c: char)
        requires
            utf8_len_seq(old(self).chars()) + utf8_len(c) <= N as int,
        ensures
            final(self).chars() == old(self).chars().push(c),
    {
        let _ = self.text.push(c);
    }

    /// Relies on heapless::String::as_str: the stored bytes are the UTF-8
    /// encoding of exactly the characters pushed so far — each push fit,
    /// by its own `requires` — so the returned text reads back the view.
    #[verifier::external_body]
    pub fn as_str(&self) -> (r: &str)
        ensures
            r@ == self.chars(),
    {
        self.text.as_str()
    }
}

impl Recompositions {
    /// Drains a fresh duplicate of the sequence into a character vector:
    /// exactly the characters the machine owes when it owes no failure,
    /// and the overflow failure otherwise.
    pub fn to_chars(&self) -> (r: Result<Vec<char>, BufferOverflow>)
        requires
            self.wf(),
        ensures
            ({
                let out = remaining(self@);
                match r {
                    Ok(v) => all_ok(out) && v@ == ok_chars(out),
                    Err(e) => !all_ok(out),
                }
            }),
    {
        let mut d = self.duplicate();
        let mut acc: Vec<char> = Vec::new();
        proof {
            assert(remaining(self@) =~= ok_results(acc@) + remaining(d@));
        }
        loop
            invariant
                d.wf(),
                remaining(self@) == ok_results(acc@) + remaining(d@),
            decreases remaining(d@).len(),
        {
            let ghost d_pre = d@;
            let ghost acc_pre = acc@;
            match d.next() {
                None => {
                    proof {
                        assert(remaining(self@) =~= ok_results(acc@));
                        lemma_ok_results(acc@);
                    }
                    return Ok(acc);
                },
                Some(e) => {
                    proof {
                        assert(remaining(d_pre) =~= seq![e] + remaining(d@));
                    }
                    match e {
                        Ok(c) => {
                            acc.push(c);
                            proof {
                                assert(ok_results(acc@) + remaining(d@) =~= ok_results(acc_pre)
                                    + remaining(d_pre));
                            }
                        },
                        Err(err) => {
                            proof {
                                let out = remaining(self@);
                                assert(out[acc_pre.len() as int] == Err::<
                                    char,
                                    BufferOverflow,
                                >(err));
                                assert(!all_ok(out));
                            }
                            return Err(err);
                        },
                    }
                },
            }
        }
    }

    /// Drains a fresh duplicate of the sequence into a text buffer of
    /// fixed byte capacity `N`, one character at a time — no intermediate
    /// buffer: succeeds exactly when the machine owes no failure and the
    /// recomposed text fits, and the returned text then holds exactly the
    /// recomposed characters; reports the overflow failure otherwise.
    pub fn to_string<const N: usize>(&self) -> (r: Result<BoundedText<N>, BufferOverflow>)
        requires
            self.wf(),
        ensures
            ({
                let out = remaining(self@);
                &&& r is Ok <==> all_ok(out) && utf8_len_seq(ok_chars(out)) <= N as int
                &&& r is Ok ==> r->Ok_0.chars() == ok_chars(out)
            }),
    {
        let mut d = self.duplicate();
        let mut t: BoundedText<N> = BoundedText::new();
        let mut total: usize = 0;
        proof {
            assert(remaining(self@) =~= ok_results(t.chars()) + remaining(d@));
        }
        loop
            invariant
                d.wf(),
                remaining(self@) == ok_results(t.chars()) + remaining(d@),
                total as int == utf8_len_seq(t.chars()),
                total <= N,
            decreases remaining(d@).len(),
        {
            let ghost d_pre = d@;
            let ghost t_pre = t.chars();
            match d.next() {
                None => {
                    proof {
                        assert(remaining(self@) =~= ok_results(t.chars()));
                        lemma_ok_results(t.chars());
                    }
                    return Ok(t);
                },
                Some(e) => {
                    proof {
                        assert(remaining(d_pre) =~= seq![e] + remaining(d@));
                    }
                    match e {
                        Ok(c) => {
                            let l = utf8_len_of(c);
                            proof {
                                assert(t_pre.push(c).drop_last() =~= t_pre);
                                assert(t_pre.push(c).last() == c);
                            }
                            if N - total < l {
                                proof {
                                    let out = remaining(self@);
                                    if all_ok(out) {
                                        assert(out[t_pre.len() as int] == Ok::<
                                            char,
                                            BufferOverflow,
                                        >(c));
                                        assert(ok_chars(out).take(t_pre.len() as int + 1) =~= t_pre.push(
                                            c,
                                        ));
                                        lemma_utf8_prefix(ok_chars(out), t_pre.len() as int + 1);
                                        assert(utf8_len_seq(ok_chars(out)) > N as int);
                                    }
                                }
                                return Err(BufferOverflow);
                            }
                            t.push(c);
                            total = total + l;
                            proof {
                                assert(ok_results(t.chars()) + remaining(d@) =~= ok_results(t_pre)
                                    + remaining(d_pre));
                            }
                        },
                        Err(err) => {
                            proof {
                                assert(remaining(self@)[t_pre.len() as int] == Err::<
                                    char,
                                    BufferOverflow,
                                >(err));
                                assert(!all_ok(remaining(self@)));
                            }
                            return Err(err);
                        },
                    }
                },
            }
        }
    }
}

} // verus!
