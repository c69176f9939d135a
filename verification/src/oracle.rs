use vstd::prelude::*;

verus! {

/// Mathematical view of an [`Oracle`]: the two lookup tables as sequences.
/// A character absent from `cc` has combining class 0; a pair absent from
/// `comp` does not compose. Lookup takes the first matching entry.
#[verifier::ext_equal]
pub struct OracleModel {
    pub cc: Seq<(char, u8)>,
    pub comp: Seq<(char, char, char)>,
}

/// First-match lookup of a combining class; characters not listed are
/// bases (class 0), so the lookup is a total function.
pub open spec fn lookup_cc(t: Seq<(char, u8)>, c: char) -> u8
    decreases t.len(),
{
    if t.len() == 0 {
        0
    } else if t[0].0 == c {
        t[0].1
    } else {
        lookup_cc(t.drop_first(), c)
    }
}

/// First-match lookup of a composed character for a pair; pairs not
/// listed do not compose, so the lookup is a total partial-map.
pub open spec fn lookup_comp(t: Seq<(char, char, char)>, a: char, b: char) -> Option<char>
    decreases t.len(),
{
    if t.len() == 0 {
        None
    } else if t[0].0 == a && t[0].1 == b {
        Some(t[0].2)
    } else {
        lookup_comp(t.drop_first(), a, b)
    }
}

/// Combining class of `c` under oracle `o`: 0 denotes a base character.
pub open spec fn cc_of(o: OracleModel, c: char) -> u8 {
    lookup_cc(o.cc, c)
}

/// Pairwise canonical composition of `(a, b)` under oracle `o`:
/// `None` where the pair does not compose.
pub open spec fn compose_of(o: OracleModel, a: char, b: char) -> Option<char> {
    lookup_comp(o.comp, a, b)
}

/// The Unicode data oracle: the combining-class table and the pairwise
/// composition table, supplied as plain data when the pipeline is built.
/// Both lookups are pure, total functions of the stored tables.
pub struct Oracle {
    pub cc: Vec<(char, u8)>,
    pub comp: Vec<(char, char, char)>,
}

impl View for Oracle {
    type V = OracleModel;

    open spec fn view(&self) -> OracleModel {
        OracleModel { cc: self.cc@, comp: self.comp@ }
    }
}

impl Oracle {
    /// Builds an oracle from a combining-class table and a composition table.
    pub fn new(cc: Vec<(char, u8)>, comp: Vec<(char, char, char)>) -> (r: Oracle)
        ensures
            r@ == (OracleModel { cc: cc@, comp: comp@ }),
    {
        Oracle { cc, comp }
    }

    /// Duplicates the oracle; the copy shares no mutable state with the original.
    pub fn duplicate(&self) -> (r: Oracle)
        ensures
            r@ == self@,
    {
        let mut cc: Vec<(char, u8)> = Vec::new();
        let mut i: usize = 0;
        while i < self.cc.len()
            invariant
                i <= self.cc.len(),
                cc@ == self.cc@.take(i as int),
            decreases self.cc.len() - i,
        {
            cc.push(self.cc[i]);
            proof {
                assert(cc@ =~= self.cc@.take(i + 1));
            }
            i = i + 1;
        }
        let mut comp: Vec<(char, char, char)> = Vec::new();
        let mut j: usize = 0;
        while j < self.comp.len()
            invariant
                j <= self.comp.len(),
                comp@ == self.comp@.take(j as int),
            decreases self.comp.len() - j,
        {
            comp.push(self.comp[j]);
            proof {
                assert(comp@ =~= self.comp@.take(j + 1));
            }
            j = j + 1;
        }
        proof {
            assert(cc@ =~= self.cc@);
            assert(comp@ =~= self.comp@);
        }
        Oracle { cc, comp }
    }

    /// Combining class of `c`: a small non-negative integer, 0 for bases.
    pub fn combining_class(&self, c: char) -> (r: u8)
        ensures
            r == cc_of(self@, c),
    {
        let mut i: usize = 0;
        proof {
            assert(self.cc@.skip(0) =~= self.cc@);
        }
        while i < self.cc.len()
            invariant
                i <= self.cc.len(),
                lookup_cc(self.cc@.skip(i as int), c) == lookup_cc(self.cc@, c),
            decreases self.cc.len() - i,
        {
            let entry = self.cc[i];
            proof {
                assert(self.cc@.skip(i as int)[0] == self.cc@[i as int]);
                assert(self.cc@.skip(i as int).drop_first() =~= self.cc@.skip(i + 1));
            }
            if entry.0 == c {
                return entry.1;
            }
            i = i + 1;
        }
        proof {
            assert(self.cc@.skip(i as int) =~= Seq::<(char, u8)>::empty());
        }
        0
    }

    /// Pairwise composition of `(a, b)`: the composed character, or `None`
    /// where the table defines none.
    pub fn compose(&self, a: char, b: char) -> (r: Option<char>)
        ensures
            r == compose_of(self@, a, b),
    {
        let mut i: usize = 0;
        proof {
            assert(self.comp@.skip(0) =~= self.comp@);
        }
        while i < self.comp.len()
            invariant
                i <= self.comp.len(),
                lookup_comp(self.comp@.skip(i as int), a, b) == lookup_comp(self.comp@, a, b),
            decreases self.comp.len() - i,
        {
            let entry = self.comp[i];
            proof {
                assert(self.comp@.skip(i as int)[0] == self.comp@[i as int]);
                assert(self.comp@.skip(i as int).drop_first() =~= self.comp@.skip(i + 1));
            }
            if entry.0 == a && entry.1 == b {
                return Some(entry.2);
            }
            i = i + 1;
        }
        proof {
            assert(self.comp@.skip(i as int) =~= Seq::<(char, char, char)>::empty());
        }
        None
    }
}

} // verus!
