use vstd::prelude::*;

verus! {

/// Letter type is just a character.
pub type Letter = char;

/// Constant definition of a gap "letter".
pub const GAP: Letter = '-';

/// Conversion of letter-like values into a plain `Letter`.
pub trait NormalizeLetter: Sized {
    /// The letter that `self` stands for.
    spec fn normalized(self) -> Letter;

    /// This method normalizes `Self` into a value of `Letter` type.
    ///
    /// E.g. `None` becomes `'-'` (gap).
    fn normalize_letter(self) -> (r: Letter)
        ensures
            r == self.normalized(),
    ;
}

// a letter stands for itself
impl NormalizeLetter for Letter {
    open spec fn normalized(self) -> Letter {
        self
    }

    fn normalize_letter(self) -> (r: Letter) {
        self
    }
}

// a reference stands for the letter it points to
impl<'a, L: NormalizeLetter + Copy> NormalizeLetter for &'a L {
    open spec fn normalized(self) -> Letter {
        (*self).normalized()
    }

    fn normalize_letter(self) -> (r: Letter) {
        (*self).normalize_letter()
    }
}

// an absent letter stands for a gap
impl<L: NormalizeLetter> NormalizeLetter for Option<L> {
    open spec fn normalized(self) -> Letter {
        match self {
            Some(l) => l.normalized(),
            None => GAP,
        }
    }

    fn normalize_letter(self) -> (r: Letter) {
        match self {
            Some(l) => l.normalize_letter(),
            None => GAP,
        }
    }
}

/// `s` with its gaps removed.
pub open spec fn without_gaps(s: Seq<Letter>) -> Seq<Letter> {
    s.filter(|x: Letter| x != GAP)
}

/// Whether `s` holds no gap.
pub open spec fn gap_free(s: Seq<Letter>) -> bool {
    forall|k: int| 0 <= k < s.len() ==> s[k] != GAP
}

/// Removing the gaps of `s` plus a letter removes those of `s` and keeps
/// the letter unless it is a gap.
pub proof fn lemma_without_gaps_push(s: Seq<Letter>, x: Letter)
    ensures
        without_gaps(s.push(x)) == if x == GAP {
            without_gaps(s)
        } else {
            without_gaps(s).push(x)
        },
{
    s.lemma_filter_push(x, |x: Letter| x != GAP);
}

/// Appending `x` to `a` in front of the reversal of `s` is appending to
/// `a` the reversal of `s` followed by `x`.
pub proof fn lemma_push_reverse(a: Seq<Letter>, s: Seq<Letter>, x: Letter)
    ensures
        a.push(x) + s.reverse() == a + s.push(x).reverse(),
{
    assert(a.push(x) + s.reverse() =~= a + s.push(x).reverse());
}

/// Returns the letters of `v` in reverse order.
pub fn reversed(v: &Vec<Letter>) -> (r: Vec<Letter>)
    ensures
        r@ == v@.reverse(),
{
    let mut r: Vec<Letter> = Vec::new();
    let mut k: usize = v.len();
    while k > 0
        invariant
            k <= v.len(),
            r@.len() == v.len() - k,
            forall|t: int| 0 <= t < r@.len() ==> r@[t] == v@[v.len() - 1 - t],
        decreases k,
    {
        k = k - 1;
        r.push(v[k]);
    }
    assert(r@ =~= v@.reverse());
    r
}

} // verus!
