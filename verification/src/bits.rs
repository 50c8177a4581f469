use vstd::prelude::*;
use vstd::string::StrSliceExecFns;
use vstd::string::StringExecFns;

verus! {

/// A four-valued logic level: `H` (logical 1), `L` (logical 0),
/// `X` (unknown or conflict) and `Z` (high impedance).
#[derive(Clone, Copy, Debug, PartialEq, Eq, Structural)]
pub enum LV {
    H,
    L,
    X,
    Z,
}

/// Truth table of the four-valued conjunction: `L` dominates, two
/// strong signals combine as usual, and every combination that
/// involves an unknown or undriven level yields `X`.
pub open spec fn lv_and(a: LV, b: LV) -> LV {
    match (a, b) {
        (LV::L, _) => LV::L,
        (_, LV::L) => LV::L,
        (LV::H, LV::H) => LV::H,
        _ => LV::X,
    }
}

/// Truth table of the four-valued disjunction: `H` dominates, two
/// strong signals combine as usual, and every combination that
/// involves an unknown or undriven level yields `X`.
pub open spec fn lv_or(a: LV, b: LV) -> LV {
    match (a, b) {
        (LV::H, _) => LV::H,
        (_, LV::H) => LV::H,
        (LV::L, LV::L) => LV::L,
        _ => LV::X,
    }
}

/// Four-valued negation: strong levels flip, `X` and `Z` both come
/// out as `X`.
pub open spec fn lv_not(a: LV) -> LV {
    match a {
        LV::H => LV::L,
        LV::L => LV::H,
        LV::X => LV::X,
        LV::Z => LV::X,
    }
}

/// The character that a logic level prints as.
pub open spec fn lv_char(a: LV) -> char {
    match a {
        LV::H => '1',
        LV::L => '0',
        LV::X => 'X',
        LV::Z => 'Z',
    }
}

impl LV {
    pub fn and(&self, other: &LV) -> (r: LV)
        ensures
            r == lv_and(*self, *other),
    {
        match (self, other) {
            (LV::L, _) => LV::L,
            (_, LV::L) => LV::L,
            (LV::H, LV::H) => LV::H,
            _ => LV::X,
        }
    }

    pub fn or(&self, other: &LV) -> (r: LV)
        ensures
            r == lv_or(*self, *other),
    {
        match (self, other) {
            (LV::H, _) => LV::H,
            (_, LV::H) => LV::H,
            (LV::L, LV::L) => LV::L,
            _ => LV::X,
        }
    }

    pub fn not(&self) -> (r: LV)
        ensures
            r == lv_not(*self),
    {
        match self {
            LV::H => LV::L,
            LV::L => LV::H,
            LV::X => LV::X,
            LV::Z => LV::X,
        }
    }

    /// The character this level prints as: `H` is '1', `L` is '0',
    /// `X` is 'X' and `Z` is 'Z'.
    pub fn display_char(&self) -> (c: char)
        ensures
            c == lv_char(*self),
    {
        match self {
            LV::H => '1',
            LV::L => '0',
            LV::X => 'X',
            LV::Z => 'Z',
        }
    }
}

/// Conjunction and disjunction are commutative.
pub proof fn lemma_lv_and_or_commutative(a: LV, b: LV)
    ensures
        lv_and(a, b) == lv_and(b, a),
        lv_or(a, b) == lv_or(b, a),
{
}

/// Negation is an involution on the strong levels.
pub proof fn lemma_lv_not_involution_on_strong()
    ensures
        lv_not(lv_not(LV::H)) == LV::H,
        lv_not(lv_not(LV::L)) == LV::L,
{
}

/// The weak levels both negate to `X`.
pub proof fn lemma_lv_not_absorbs_weak()
    ensures
        lv_not(LV::X) == LV::X,
        lv_not(LV::Z) == LV::X,
{
}

/// `L` is the zero of conjunction and `H` is the zero of disjunction.
pub proof fn lemma_lv_zeros(a: LV)
    ensures
        lv_and(LV::L, a) == LV::L,
        lv_and(a, LV::L) == LV::L,
        lv_or(LV::H, a) == LV::H,
        lv_or(a, LV::H) == LV::H,
{
}

/// A fixed-width ordered vector of logic levels. The width is set at
/// construction and the pointwise operations demand equal widths.
#[derive(Debug)]
pub struct Bits {
    pub value: Vec<LV>,
}

impl View for Bits {
    type V = Seq<LV>;

    open spec fn view(&self) -> Seq<LV> {
        self.value@
    }
}

/// Pointwise conjunction of two equal-length level sequences.
pub open spec fn seq_and(a: Seq<LV>, b: Seq<LV>) -> Seq<LV> {
    Seq::new(a.len(), |i: int| lv_and(a[i], b[i]))
}

/// Pointwise disjunction of two equal-length level sequences.
pub open spec fn seq_or(a: Seq<LV>, b: Seq<LV>) -> Seq<LV> {
    Seq::new(a.len(), |i: int| lv_or(a[i], b[i]))
}

/// Pointwise negation of a level sequence.
pub open spec fn seq_not(a: Seq<LV>) -> Seq<LV> {
    Seq::new(a.len(), |i: int| lv_not(a[i]))
}

impl Clone for Bits {
    fn clone(&self) -> (r: Self)
        ensures
            r@ == self@,
    {
        let mut value: Vec<LV> = Vec::new();
        let mut i: usize = 0;
        while i < self.value.len()
            invariant
                i <= self.value.len(),
                value@ == self.value@.subrange(0, i as int),
            decreases self.value.len() - i,
        {
            value.push(self.value[i]);
            i = i + 1;
        }
        proof {
            assert(value@ =~= self.value@);
        }
        Bits { value }
    }
}

impl PartialEq for Bits {
    /// Structural equality: the widths agree and every position holds
    /// the same level.
    fn eq(&self, other: &Bits) -> (r: bool) {
        if self.value.len() != other.value.len() {
            return false;
        }
        let mut i: usize = 0;
        while i < self.value.len()
            invariant
                i <= self.value.len(),
                self.value.len() == other.value.len(),
                forall|j: int| 0 <= j < i ==> self.value@[j] == other.value@[j],
            decreases self.value.len() - i,
        {
            if self.value[i] != other.value[i] {
                return false;
            }
            i = i + 1;
        }
        proof {
            assert(self@ =~= other@);
        }
        true
    }
}

impl Eq for Bits {

}

impl vstd::std_specs::cmp::PartialEqSpecImpl for Bits {
    open spec fn obeys_eq_spec() -> bool {
        true
    }

    open spec fn eq_spec(&self, other: &Bits) -> bool {
        self@ == other@
    }
}

impl Bits {
    /// A fresh vector of `n` undriven (`Z`) levels.
    pub fn new(n: usize) -> (r: Bits)
        ensures
            r@.len() == n,
            forall|i: int| 0 <= i < n ==> r@[i] == LV::Z,
    {
        let mut value: Vec<LV> = Vec::new();
        let mut i: usize = 0;
        while i < n
            invariant
                i <= n,
                value@.len() == i,
                forall|j: int| 0 <= j < i ==> value@[j] == LV::Z,
            decreases n - i,
        {
            value.push(LV::Z);
            i = i + 1;
        }
        Bits { value }
    }

    pub fn set(&mut self, idx: usize, value: LV)
        requires
            idx < old(self)@.len(),
        ensures
            final(self)@ == old(self)@.update(idx as int, value),
    {
        self.value[idx] = value;
    }

    pub fn get(&self, idx: usize) -> (r: LV)
        requires
            idx < self@.len(),
        ensures
            r == self@[idx as int],
    {
        self.value[idx]
    }

    pub fn len(&self) -> (n: usize)
        ensures
            n == self@.len(),
    {
        self.value.len()
    }

    /// Pointwise conjunction; both vectors must have the same width.
    pub fn and(&self, other: &Bits) -> (r: Bits)
        requires
            self@.len() == other@.len(),
        ensures
            r@ == seq_and(self@, other@),
    {
        let mut value: Vec<LV> = Vec::new();
        let mut i: usize = 0;
        while i < self.value.len()
            invariant
                i <= self.value.len(),
                self@.len() == other@.len(),
                value@.len() == i,
                forall|j: int| 0 <= j < i ==> value@[j] == lv_and(self@[j], other@[j]),
            decreases self.value.len() - i,
        {
            value.push(self.value[i].and(&other.value[i]));
            i = i + 1;
        }
        proof {
            assert(value@ =~= seq_and(self@, other@));
        }
        Bits { value }
    }

    /// Pointwise disjunction; both vectors must have the same width.
    pub fn or(&self, other: &Bits) -> (r: Bits)
        requires
            self@.len() == other@.len(),
        ensures
            r@ == seq_or(self@, other@),
    {
        let mut value: Vec<LV> = Vec::new();
        let mut i: usize = 0;
        while i < self.value.len()
            invariant
                i <= self.value.len(),
                self@.len() == other@.len(),
                value@.len() == i,
                forall|j: int| 0 <= j < i ==> value@[j] == lv_or(self@[j], other@[j]),
            decreases self.value.len() - i,
        {
            value.push(self.value[i].or(&other.value[i]));
            i = i + 1;
        }
        proof {
            assert(value@ =~= seq_or(self@, other@));
        }
        Bits { value }
    }

    /// Pointwise negation.
    pub fn not(&self) -> (r: Bits)
        ensures
            r@ == seq_not(self@),
    {
        let mut value: Vec<LV> = Vec::new();
        let mut i: usize = 0;
        while i < self.value.len()
            invariant
                i <= self.value.len(),
                value@.len() == i,
                forall|j: int| 0 <= j < i ==> value@[j] == lv_not(self@[j]),
            decreases self.value.len() - i,
        {
            value.push(self.value[i].not());
            i = i + 1;
        }
        proof {
            assert(value@ =~= seq_not(self@));
        }
        Bits { value }
    }

    /// The half-open subvector `[start, end)`. Fails exactly when
    /// `start >= len`, `end > len` or `start > end`.
    pub fn get_range(&self, start: usize, end: usize) -> (r: Result<Bits, ()>)
        ensures
            start < self@.len() && end <= self@.len() && start <= end ==> (r matches Ok(b)
                && b@ == self@.subrange(start as int, end as int)),
            !(start < self@.len() && end <= self@.len() && start <= end) ==> r is Err,
    {
        if start >= self.value.len() || end > self.value.len() || start > end {
            return Err(());
        }
        let mut value: Vec<LV> = Vec::new();
        let mut i: usize = start;
        while i < end
            invariant
                start <= i <= end,
                end <= self@.len(),
                value@ == self@.subrange(start as int, i as int),
            decreases end - i,
        {
            value.push(self.value[i]);
            i = i + 1;
        }
        proof {
            assert(value@ =~= self@.subrange(start as int, end as int));
        }
        Ok(Bits { value })
    }

    /// The printed form: index 0 leftmost, one character per level,
    /// `H` as '1', `L` as '0', `X` as 'X', `Z` as 'Z'.
    pub fn display_string(&self) -> (r: String)
        ensures
            r@.len() == self@.len(),
            forall|i: int| 0 <= i < self@.len() ==> r@[i] == lv_char(self@[i]),
    {
        let mut r = String::new();
        let mut i: usize = 0;
        while i < self.value.len()
            invariant
                i <= self.value.len(),
                r@.len() == i,
                forall|j: int| 0 <= j < i ==> r@[j] == lv_char(self.value@[j]),
            decreases self.value.len() - i,
        {
            proof {
                reveal_strlit("1");
                reveal_strlit("0");
                reveal_strlit("X");
                reveal_strlit("Z");
            }
            match self.value[i] {
                LV::H => r.append("1"),
                LV::L => r.append("0"),
                LV::X => r.append("X"),
                LV::Z => r.append("Z"),
            }
            i = i + 1;
        }
        r
    }
}

/// The vector operations distribute pointwise over the level
/// operations: at every position, the combined vector holds exactly
/// the combination of the operand levels at that position.
pub proof fn lemma_bits_ops_pointwise(a: Seq<LV>, b: Seq<LV>)
    requires
        a.len() == b.len(),
    ensures
        seq_and(a, b).len() == a.len(),
        seq_or(a, b).len() == a.len(),
        seq_not(a).len() == a.len(),
        forall|i: int| 0 <= i < a.len() ==> #[trigger] seq_and(a, b)[i] == lv_and(a[i], b[i]),
        forall|i: int| 0 <= i < a.len() ==> #[trigger] seq_or(a, b)[i] == lv_or(a[i], b[i]),
        forall|i: int| 0 <= i < a.len() ==> #[trigger] seq_not(a)[i] == lv_not(a[i]),
{
}

} // verus!
