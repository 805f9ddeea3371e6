//! The static instrument mapping table: upstream symbol to internal
//! instrument id.  Loaded once at startup, read-only afterwards; a
//! symbol absent from it is filtered out, so the table doubles as an
//! allow-list.
use crate::text::{check_token_range, token_ok};
use vstd::prelude::*;

verus! {

/// Whether the association list holds the key.
pub open spec fn map_contains(s: Seq<(Seq<char>, Seq<char>)>, k: Seq<char>) -> bool {
    exists|i: int| 0 <= i < s.len() && (#[trigger] s[i]).0 == k
}

/// The value under a key the association list holds.
pub open spec fn map_value(s: Seq<(Seq<char>, Seq<char>)>, k: Seq<char>) -> Seq<char> {
    s[choose|i: int| 0 <= i < s.len() && (#[trigger] s[i]).0 == k].1
}

/// The instrument mapping table.
pub struct InstrumentMap {
    entries: Vec<(String, String)>,
}

impl View for InstrumentMap {
    type V = Seq<(Seq<char>, Seq<char>)>;

    closed spec fn view(&self) -> Seq<(Seq<char>, Seq<char>)> {
        self.entries@.map_values(|p: (String, String)| (p.0@, p.1@))
    }
}

impl InstrumentMap {
    /// Keys are unique, and every symbol and id is a plain token that
    /// can stand in a wire line.
    pub open spec fn wf(&self) -> bool {
        &&& forall|i: int, j: int|
            0 <= i < j < self@.len() ==> (#[trigger] self@[i]).0 != (#[trigger] self@[j]).0
        &&& forall|i: int|
            0 <= i < self@.len() ==> token_ok((#[trigger] self@[i]).0) && token_ok(self@[i].1)
    }

    pub fn new() -> (r: Self)
        ensures
            r@ == Seq::<(Seq<char>, Seq<char>)>::empty(),
            r.wf(),
    {
        InstrumentMap { entries: Vec::new() }
    }

    pub fn len(&self) -> (r: usize)
        ensures
            r == self@.len(),
    {
        self.entries.len()
    }

    /// Whether the table maps this upstream symbol.
    pub fn contains(&self, symbol: &String) -> (r: bool)
        ensures
            r == map_contains(self@, symbol@),
    {
        let n = self.entries.len();
        let mut i: usize = 0;
        while i < n
            invariant
                0 <= i <= n == self@.len(),
                forall|t: int| 0 <= t < i ==> (#[trigger] self@[t]).0 != symbol@,
            decreases n - i,
        {
            if self.entries[i].0 == *symbol {
                proof {
                    assert(self@[i as int].0 == symbol@);
                }
                return true;
            }
            proof {
                assert(self@[i as int].0 == self.entries@[i as int].0@);
            }
            i += 1;
        }
        false
    }

    /// Adds one association.  Rejected when the symbol is already
    /// mapped or either side is not a plain token; the table is then
    /// unchanged.
    pub fn insert(&mut self, symbol: String, internal: String) -> (r: bool)
        requires
            old(self).wf(),
        ensures
            final(self).wf(),
            r == (!map_contains(old(self)@, symbol@) && token_ok(symbol@) && token_ok(internal@)),
            r ==> final(self)@ == old(self)@.push((symbol@, internal@)),
            !r ==> final(self)@ == old(self)@,
    {
        let sn = symbol.as_str().unicode_len();
        let in_n = internal.as_str().unicode_len();
        proof {
            assert(symbol@.subrange(0, symbol@.len() as int) =~= symbol@);
            assert(internal@.subrange(0, internal@.len() as int) =~= internal@);
        }
        if !crate::text::str_is_ascii(symbol.as_str()) {
            return false;
        }
        if !crate::text::str_is_ascii(internal.as_str()) {
            return false;
        }
        if !check_token_range(symbol.as_str(), 0, sn) {
            return false;
        }
        if !check_token_range(internal.as_str(), 0, in_n) {
            return false;
        }
        if self.contains(&symbol) {
            return false;
        }
        self.entries.push((symbol, internal));
        proof {
            assert(final(self)@ =~= old(self)@.push((symbol@, internal@)));
        }
        true
    }

    /// The associations, in insertion order.
    pub fn pairs(&self) -> (r: Vec<(String, String)>)
        ensures
            r@.len() == self@.len(),
            forall|i: int|
                0 <= i < r@.len() ==> ((#[trigger] r@[i]).0@, r@[i].1@) == self@[i],
    {
        let n = self.entries.len();
        let mut out: Vec<(String, String)> = Vec::new();
        let mut i: usize = 0;
        while i < n
            invariant
                0 <= i <= n == self@.len(),
                out@.len() == i,
                forall|t: int|
                    0 <= t < i ==> ((#[trigger] out@[t]).0@, out@[t].1@) == self@[t],
            decreases n - i,
        {
            let entry = &self.entries[i];
            out.push((entry.0.clone(), entry.1.clone()));
            proof {
                assert(self@[i as int] == (self.entries@[i as int].0@, self.entries@[i as int].1@));
            }
            i += 1;
        }
        out
    }

    /// Looks an upstream symbol up; `None` filters the event out.
    pub fn get(&self, symbol: &String) -> (r: Option<&String>)
        requires
            self.wf(),
        ensures
            (r is Some) == map_contains(self@, symbol@),
            r matches Some(v) ==> v@ == map_value(self@, symbol@),
    {
        let n = self.entries.len();
        let mut i: usize = 0;
        while i < n
            invariant
                0 <= i <= n == self@.len(),
                self.wf(),
                forall|t: int| 0 <= t < i ==> (#[trigger] self@[t]).0 != symbol@,
            decreases n - i,
        {
            let entry = &self.entries[i];
            if entry.0 == *symbol {
                proof {
                    assert(self@[i as int].0 == symbol@);
                    let w = choose|w: int|
                        0 <= w < self@.len() && (#[trigger] self@[w]).0 == symbol@;
                    assert(w == i as int) by {
                        if w != i as int {
                            assert(self@[w].0 != self@[i as int].0);
                        }
                    }
                    assert(self@[i as int].1 == entry.1@);
                }
                return Some(&entry.1);
            }
            proof {
                assert(self@[i as int].0 == self.entries@[i as int].0@);
            }
            i += 1;
        }
        None
    }
}

} // verus!
