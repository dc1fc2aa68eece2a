//! The symbol stream: source text reduced to its uppercase letters, consumed
//! left to right by the parser, with one three-symbol lookahead for `END`.
use vstd::prelude::*;
use vstd::string::StrSliceExecFns;

verus! {

/// Whether a character has the Unicode uppercase property; what
/// `char::is_uppercase` answers.
pub uninterp spec fn uppercase(c: char) -> bool;

/// Relies on `char::is_uppercase`: the Unicode uppercase property of the
/// character alone; every uppercase character sits at or above `A`.
#[verifier::external_body]
fn is_upper(c: char) -> (r: bool)
    ensures
        r == uppercase(c),
        r ==> c as u32 >= 65,
{
    c.is_uppercase()
}

/// The subsequence of uppercase characters, in their original order.
pub open spec fn kept(s: Seq<char>) -> Seq<char>
    decreases s.len(),
{
    if s.len() == 0 {
        Seq::empty()
    } else {
        kept(s.drop_last()) + (if uppercase(s.last()) {
            seq![s.last()]
        } else {
            Seq::empty()
        })
    }
}

/// The next three pending symbols are exactly `E`, `N`, `D`.
pub open spec fn peek_end(s: Seq<char>) -> bool {
    s.len() >= 3 && s[0] == 'E' && s[1] == 'N' && s[2] == 'D'
}

/// A cursor over the filtered symbols of one program.
pub struct BabbleCodeIterator {
    pub code: Vec<char>,
    pub pos: usize,
}

impl View for BabbleCodeIterator {
    type V = Seq<char>;

    /// The symbols not yet consumed.
    open spec fn view(&self) -> Seq<char> {
        self.code@.skip(self.pos as int)
    }
}

impl BabbleCodeIterator {
    /// Every pending symbol is an uppercase character, hence at or above `A`.
    pub open spec fn inv(&self) -> bool {
        &&& self.pos <= self.code@.len()
        &&& forall|i: int|
            self.pos <= i < self.code@.len() ==> #[trigger] (self.code@[i] as u32) >= 65
                && uppercase(self.code@[i])
    }

    pub fn new(code: String) -> (it: BabbleCodeIterator)
        ensures
            it@ == kept(code@),
            it.inv(),
    {
        let s = code.as_str();
        let n = s.unicode_len();
        let mut v: Vec<char> = Vec::new();
        let mut i: usize = 0;
        proof {
            assert(s@.take(0) =~= Seq::<char>::empty());
        }
        while i < n
            invariant
                i <= n,
                n == s@.len(),
                v@ == kept(s@.take(i as int)),
                forall|k: int| 0 <= k < v@.len() ==> #[trigger] (v@[k] as u32) >= 65 && uppercase(
                    v@[k],
                ),
            decreases n - i,
        {
            let c = s.get_char(i);
            proof {
                let t = s@.take(i as int + 1);
                assert(t.drop_last() =~= s@.take(i as int));
                assert(t.last() == s@[i as int]);
            }
            if is_upper(c) {
                v.push(c);
            }
            i += 1;
        }
        proof {
            assert(s@.take(s@.len() as int) =~= s@);
        }
        let it = BabbleCodeIterator { code: v, pos: 0 };
        proof {
            assert(it@ =~= v@);
        }
        it
    }

    /// Consume and return the next symbol, or signal exhaustion.
    pub fn next(&mut self) -> (r: Option<char>)
        requires
            old(self).inv(),
        ensures
            final(self).inv(),
            old(self)@.len() == 0 ==> r is None && final(self)@ == old(self)@,
            old(self)@.len() > 0 ==> r == Some(old(self)@[0]) && final(self)@ == old(
                self,
            )@.drop_first() && final(self).pos == old(self).pos + 1,
            old(self)@.len() == 0 ==> final(self).pos == old(self).pos,
            r matches Some(c) ==> c as u32 >= 65 && uppercase(c),
    {
        if self.pos < self.code.len() {
            let c = self.code[self.pos];
            proof {
                assert(self.code@[self.pos as int] as u32 >= 65 && uppercase(
                    self.code@[self.pos as int],
                ));
            }
            self.pos += 1;
            proof {
                assert(final(self)@ =~= old(self)@.drop_first());
            }
            Some(c)
        } else {
            None
        }
    }

    /// Whether the next three pending symbols spell `END`, without consuming.
    pub fn is_ending(&self) -> (r: bool)
        requires
            self.inv(),
        ensures
            r == peek_end(self@),
    {
        if self.code.len() >= 3 && self.pos <= self.code.len() - 3 {
            let a = self.code[self.pos];
            let b = self.code[self.pos + 1];
            let c = self.code[self.pos + 2];
            a == 'E' && b == 'N' && c == 'D'
        } else {
            false
        }
    }
}

} // verus!
