//! The movement between two chords of equal size, voice by voice.

use crate::text::{bracketed, decimal, hundredths, push_char, push_decimal};
use crate::util::iterable_to_str;
use vstd::prelude::*;
use vstd::string::StringExecFns;

verus! {

/// The size of a movement, whatever its direction.
pub open spec fn magnitude(x: int) -> nat {
    if x < 0 {
        (-x) as nat
    } else {
        x as nat
    }
}

/// The sum of the sizes of all movements.
pub open spec fn abs_sum(d: Seq<i16>) -> nat
    decreases d.len(),
{
    if d.len() == 0 {
        0
    } else {
        abs_sum(d.drop_last()) + magnitude(d.last() as int)
    }
}

/// The sum of the squares of all movements: the square of their Euclidean
/// norm.
pub open spec fn square_sum(d: Seq<i16>) -> nat
    decreases d.len(),
{
    if d.len() == 0 {
        0
    } else {
        square_sum(d.drop_last()) + (d.last() as int * d.last() as int) as nat
    }
}

/// Every movement turned round.
pub open spec fn negated(d: Seq<i16>) -> Seq<i16> {
    Seq::new(d.len(), |i: int| (-d[i]) as i16)
}

/// Every entry has a negative in sixteen bits.
pub open spec fn negatable(d: Seq<i16>) -> bool {
    forall|i: int| 0 <= i < d.len() ==> d[i] > i16::MIN
}

/// Both sums stay below what their length allows.
pub proof fn lemma_sum_bounds(d: Seq<i16>)
    ensures
        abs_sum(d) <= d.len() * 0x8000,
        square_sum(d) <= d.len() * 0x4000_0000,
    decreases d.len(),
{
    if d.len() > 0 {
        lemma_sum_bounds(d.drop_last());
        let x = d.last() as int;
        assert(0 <= x * x <= 0x4000_0000) by (nonlinear_arith)
            requires
                -0x8000 <= x <= 0x8000,
        ;
    }
}

/// Turning the movements round changes neither sum.
pub proof fn lemma_negated_sums(d: Seq<i16>)
    requires
        negatable(d),
    ensures
        abs_sum(negated(d)) == abs_sum(d),
        square_sum(negated(d)) == square_sum(d),
    decreases d.len(),
{
    if d.len() > 0 {
        assert(negated(d).drop_last() =~= negated(d.drop_last()));
        lemma_negated_sums(d.drop_last());
        let x = d.last() as int;
        assert((-x) * (-x) == x * x) by (nonlinear_arith);
    }
}

/// `r` is the whole number nearest to the square root of `m`.
pub open spec fn is_rounded_root(r: nat, m: nat) -> bool {
    &&& r == 0 || r * r - r < m
    &&& m <= r * r + r
}

/// The number that `is_rounded_root` singles out.
pub open spec fn rounded_root_of(m: nat) -> nat {
    choose|r: nat| is_rounded_root(r, m)
}

/// A hundred times the Euclidean norm of the movements, rounded to the
/// nearest whole number.
pub open spec fn norm_hundredths_of(d: Seq<i16>) -> nat {
    rounded_root_of(10000 * square_sum(d))
}

/// A difference as text: the movements, their total, and their norm to two
/// places.
pub open spec fn diff_text(d: Seq<i16>) -> Seq<char> {
    "<ChordDiff: "@ + bracketed(d) + ", sv: "@ + decimal(abs_sum(d)) + ", norm: "@ + hundredths(
        norm_hundredths_of(d),
    ) + ">"@
}

/// Only one number is the rounded root.
pub proof fn lemma_rounded_root_unique(first: nat, second: nat, m: nat)
    requires
        is_rounded_root(first, m),
        is_rounded_root(second, m),
    ensures
        first == second,
{
    if first < second {
        assert(first * first + first <= second * second - second) by (nonlinear_arith)
            requires
                first + 1 <= second,
        ;
    } else if second < first {
        assert(second * second + second <= first * first - first) by (nonlinear_arith)
            requires
                second + 1 <= first,
        ;
    }
}

/// The whole number nearest to the square root of `m`.
pub fn rounded_root(m: u128) -> (r: u128)
    requires
        m < 0x1000_0000_0000_0000_0000_0000_0000,
    ensures
        is_rounded_root(r as nat, m as nat),
        r == rounded_root_of(m as nat),
{
    let r = nearest_root(m);
    proof {
        lemma_rounded_root_unique(r as nat, rounded_root_of(m as nat), m as nat);
    }
    r
}

/// The search behind `rounded_root`: the root rounded down, by halving
/// the range in which it lies, and one more where the rest calls for it.
fn nearest_root(m: u128) -> (r: u128)
    requires
        m < 0x1000_0000_0000_0000_0000_0000_0000,
    ensures
        is_rounded_root(r as nat, m as nat),
{
    let mut low: u128 = 0;
    let mut high: u128 = 0x40_0000_0000_0000;
    assert(0x40_0000_0000_0000u128 * 0x40_0000_0000_0000u128 == 0x1000_0000_0000_0000_0000_0000_0000u128)
        by (nonlinear_arith);
    while high - low > 1
        invariant
            low < high <= 0x40_0000_0000_0000,
            low * low <= m < high * high,
        decreases high - low,
    {
        let mid: u128 = low + (high - low) / 2;
        assert(mid * mid <= 0x1000_0000_0000_0000_0000_0000_0000) by (nonlinear_arith)
            requires
                mid <= 0x40_0000_0000_0000,
        ;
        if mid * mid <= m {
            low = mid;
        } else {
            high = mid;
        }
    }
    assert((low + 1) * (low + 1) == low * low + 2 * low + 1) by (nonlinear_arith);
    if m - low * low > low {
        let r: u128 = low + 1;
        assert(r * r - r == low * low + low) by (nonlinear_arith)
            requires
                r == low + 1,
        ;
        r
    } else {
        low
    }
}

/// The movements from one chord to another of the same size, with their
/// total `sv` and the square of their norm. Both sums are held in 128
/// bits, which no vector of movements can exceed.
#[derive(Debug)]
pub struct ChordDiff {
    diff_vec: Vec<i16>,
    sv: u128,
    norm_sq: u128,
}

impl View for ChordDiff {
    type V = Seq<i16>;

    closed spec fn view(&self) -> Seq<i16> {
        self.diff_vec@
    }
}

impl ChordDiff {
    #[verifier::type_invariant]
    spec fn sums_agree(self) -> bool {
        &&& self.sv == abs_sum(self.diff_vec@)
        &&& self.norm_sq == square_sum(self.diff_vec@)
    }

    /// The movements with both of their sums.
    pub fn new(diff_vec: Vec<i16>) -> (r: ChordDiff)
        ensures
            r@ == diff_vec@,
    {
        let mut sv: u128 = 0;
        let mut norm_sq: u128 = 0;
        let mut i: usize = 0;
        while i < diff_vec.len()
            invariant
                i <= diff_vec.len(),
                sv == abs_sum(diff_vec@.take(i as int)),
                norm_sq == square_sum(diff_vec@.take(i as int)),
            decreases diff_vec.len() - i,
        {
            proof {
                lemma_sum_bounds(diff_vec@.take(i as int));
                assert(diff_vec@.take(i + 1).drop_last() =~= diff_vec@.take(i as int));
            }
            let x: i32 = diff_vec[i] as i32;
            let m: u128 = if x < 0 {
                (-x) as u128
            } else {
                x as u128
            };
            assert(m * m <= 0x4000_0000 && m * m == x * x) by (nonlinear_arith)
                requires
                    m <= 0x8000,
                    m == x || m == -x,
            ;
            sv = sv + m;
            norm_sq = norm_sq + m * m;
            i = i + 1;
        }
        assert(diff_vec@.take(i as int) =~= diff_vec@);
        ChordDiff { diff_vec, sv, norm_sq }
    }

    /// The movements, one for each voice.
    pub fn diff_vec(&self) -> (r: &Vec<i16>)
        ensures
            r@ == self@,
    {
        &self.diff_vec
    }

    /// The sum of the sizes of the movements.
    pub fn sv(&self) -> (r: u128)
        ensures
            r == abs_sum(self@),
    {
        proof {
            use_type_invariant(self);
        }
        self.sv
    }

    /// The sum of the squares of the movements.
    pub fn norm_sq(&self) -> (r: u128)
        ensures
            r == square_sum(self@),
    {
        proof {
            use_type_invariant(self);
        }
        self.norm_sq
    }

    /// A hundred times the norm of the movements, rounded to the nearest
    /// whole number.
    pub fn norm_hundredths(&self) -> (h: u128)
        ensures
            h == norm_hundredths_of(self@),
            is_rounded_root(h as nat, 10000 * square_sum(self@)),
    {
        let n: usize = self.diff_vec.len();
        proof {
            use_type_invariant(self);
            lemma_sum_bounds(self.diff_vec@);
            assert(n <= 0xFFFF_FFFF_FFFF_FFFF);
            assert(self.norm_sq <= n * 0x4000_0000);
        }
        rounded_root(10000 * self.norm_sq)
    }

    /// The difference as text.
    pub fn to_string(&self) -> (r: String)
        ensures
            r@ == diff_text(self@),
    {
        proof {
            use_type_invariant(self);
        }
        let h: u128 = self.norm_hundredths();
        let list = iterable_to_str(&self.diff_vec);
        let mut r = String::from_str("<ChordDiff: ");
        r.append(list.as_str());
        r.append(", sv: ");
        push_decimal(&mut r, self.sv);
        r.append(", norm: ");
        push_decimal(&mut r, h / 100);
        push_char(&mut r, '.');
        push_char(&mut r, crate::text::digit_to_char((h % 100 / 10) as u8));
        push_char(&mut r, crate::text::digit_to_char((h % 10) as u8));
        r.append(">");
        assert(r@ =~= diff_text(self@));
        r
    }

    /// The movements in the other direction.
    pub fn negate(&self) -> (r: ChordDiff)
        requires
            negatable(self@),
        ensures
            r@ == negated(self@),
    {
        let mut turned: Vec<i16> = Vec::new();
        let mut i: usize = 0;
        while i < self.diff_vec.len()
            invariant
                i <= self.diff_vec.len(),
                negatable(self.diff_vec@),
                turned@ == negated(self.diff_vec@).take(i as int),
            decreases self.diff_vec.len() - i,
        {
            turned.push(-self.diff_vec[i]);
            i = i + 1;
            assert(turned@ =~= negated(self.diff_vec@).take(i as int));
        }
        assert(turned@ =~= negated(self.diff_vec@));
        proof {
            use_type_invariant(self);
            lemma_negated_sums(self.diff_vec@);
        }
        ChordDiff { diff_vec: turned, sv: self.sv, norm_sq: self.norm_sq }
    }
}

impl Clone for ChordDiff {
    fn clone(&self) -> (r: Self)
        ensures
            r@ == self@,
    {
        proof {
            use_type_invariant(self);
        }
        ChordDiff { diff_vec: self.diff_vec.clone(), sv: self.sv, norm_sq: self.norm_sq }
    }
}

} // verus!
