//! Plaintext range proofs: the integer encoded by the low `value_bits` message
//! coefficients lies in `[0, bound)`, without being revealed.
//!
//! ```text
//! value = sum of m[i] * 2^i over i < value_bits   in   [0, bound)
//! ```
//!
//! The proof uses the complement technique: the prover supplies complement bits
//! `d[i]` that sum to `bound - 1 - value`, and the constraints enforce
//!
//! ```text
//! sum of (m[i] + d[i]) * 2^i over i < K  =  bound - 1     (K = value_bits)
//! ```
//!
//! Since `value` and the complement are each a sum of `K` bits, hence in
//! `[0, 2^K)`, and they sum to `bound - 1`, it follows that `value < bound`.
//!
//! Everything is materialised in five witness columns:
//!
//! - `flag[i]`: active indicator, 1 for the first `K` rows then 0, pinned by
//!   `flag[0] = 1`, a non-increasing constraint, and the count `cnt[0] = K`;
//! - `w[i]`: the weight `2^i` while active, 0 afterwards, via `w[0] = 1` and
//!   `w[i+1] = 2*w[i]*flag[i+1]`;
//! - `d[i]`: complement bits, forced to 0 where inactive;
//! - `acc`, `cnt`: suffix sums, so that the bound and count checks are single
//!   first-row constraints.
//!
//! All range constraints have degree at most 2. Only the bound and `value_bits`
//! are public, and the verifier supplies the ones it wants to check.

use crate::air;
use crate::air::{bit_constraint, local, push_constraint, RegevEncAir};
use crate::dft;
use crate::ext::Ext;
use crate::field;
use crate::field::F;
use crate::gadget::Lookup;
use crate::regev;
use crate::regev::{Ciphertext, EncryptionWitness, PublicKey};
use crate::sums;
use crate::symbolic;
use crate::symbolic::{BaseTables, Body, Constraint, Expr, Matrix, Tables, When};
use vstd::arithmetic::power2::*;
use vstd::prelude::*;

verus! {

pub const COL_FLAG: usize = 12;

pub const COL_W: usize = 13;

pub const COL_D: usize = 14;

pub const COL_ACC: usize = 15;

pub const COL_CNT: usize = 16;

/// Main columns of an encryption trace with a range proof.
pub const RNUM_COLS: usize = 17;

/// Range-proof parameters: the value in the low `value_bits` message bits is
/// below `bound`.
#[derive(Clone, Copy, Debug, PartialEq, Eq, Structural)]
pub struct RangeSpec {
    pub value_bits: usize,
    pub bound: u64,
}

impl RangeSpec {
    /// Widest supported range: `2^(value_bits + 1) <= q` rules out wraparound.
    pub const MAX_VALUE_BITS: usize = 29;

    /// `1 <= value_bits <= 29`, within the trace height, and
    /// `1 <= bound <= 2^value_bits`.
    pub open spec fn valid(self, n: int) -> bool {
        &&& 1 <= self.value_bits <= 29
        &&& self.value_bits <= n
        &&& 1 <= self.bound <= pow2(self.value_bits as nat)
    }

    /// Whether the parameters are supported at ring dimension `n`.
    pub fn is_valid(&self, n: usize) -> (r: bool)
        ensures
            r == self.valid(n as int),
            r <==> 1 <= self.value_bits <= 29 && self.value_bits <= n && 1 <= self.bound <= pow2(
                self.value_bits as nat,
            ),
    {
        if self.value_bits < 1 || self.value_bits > Self::MAX_VALUE_BITS || self.value_bits > n {
            return false;
        }
        let mut p: u64 = 1;
        let mut i: usize = 0;
        proof {
            lemma2_to64();
        }
        while i < self.value_bits
            invariant
                i <= self.value_bits <= 29,
                p == pow2(i as nat),
            decreases self.value_bits - i,
        {
            proof {
                dft::lemma_pow2_step(i as nat);
                dft::lemma_pow2_monotone(i as nat + 1, 29);
                lemma2_to64();
            }
            p = p * 2;
            i = i + 1;
        }
        1 <= self.bound && self.bound <= p
    }
}

// ---------------------------------------------------------------------------
// Relations between the rows.
// ---------------------------------------------------------------------------
/// The entry of `m + d`, weighted.
pub open spec fn weighted_entry(t: BaseTables, row: int) -> int {
    ((t.main)(row, 9) + (t.main)(row, 14)) * (t.main)(row, 13)
}

/// What the range constraints demand of the main table.
pub open spec fn range_relation(spec: RangeSpec, t: BaseTables) -> bool {
    &&& air::bits(t, 12)
    &&& air::bits(t, 14)
    &&& inactive_clear(t)
    &&& sums::cong((t.main)(0, 12), 1)
    &&& sums::cong((t.main)(0, 13), 1)
    &&& sums::cong((t.main)(0, 15), spec.bound - 1)
    &&& sums::cong((t.main)(0, 16), spec.value_bits as int)
    &&& forall|row: int|
        #![trigger step_holds(t, row)]
        0 <= row < t.height - 1 ==> step_holds(t, row)
    &&& sums::cong((t.main)(t.height - 1, 15), weighted_entry(t, t.height - 1))
    &&& sums::cong((t.main)(t.height - 1, 16), (t.main)(t.height - 1, 12))
}

/// Complement bits are zero where inactive: `d * (1 - flag) = 0`.
pub open spec fn inactive_clear(t: BaseTables) -> bool {
    forall|row: int|
        #![trigger (t.main)(row, 14)]
        0 <= row < t.height ==> sums::cong((t.main)(row, 14) * (1 - (t.main)(row, 12)), 0)
}

/// The transition from one row to the next.
pub open spec fn step_holds(t: BaseTables, row: int) -> bool {
    &&& sums::cong((t.main)(row + 1, 12) * (1 - (t.main)(row, 12)), 0)
    &&& sums::cong((t.main)(row + 1, 13), 2 * (t.main)(row, 13) * (t.main)(row + 1, 12))
    &&& sums::cong((t.main)(row, 15), weighted_entry(t, row) + (t.main)(row + 1, 15))
    &&& sums::cong((t.main)(row, 16), (t.main)(row, 12) + (t.main)(row + 1, 16))
}

// ---------------------------------------------------------------------------
// Soundness.
// ---------------------------------------------------------------------------
spec fn flag_at(t: BaseTables, i: int) -> int {
    (t.main)(i, 12) % field::q()
}

/// Suffix counts.
proof fn lemma_count(t: BaseTables, row: int)
    requires
        0 <= row < t.height,
        forall|r: int| #![trigger step_holds(t, r)] 0 <= r < t.height - 1 ==> step_holds(t, r),
        sums::cong((t.main)(t.height - 1, 16), (t.main)(t.height - 1, 12)),
    ensures
        sums::cong((t.main)(row, 16), sums::sum(row, t.height, |i: int| flag_at(t, i))),
    decreases t.height - row,
{
    let f = |i: int| flag_at(t, i);
    let h = t.height;
    sums::lemma_sum_first(row, h, f);
    sums::lemma_cong_mod((t.main)(row, 12));
    if row == h - 1 {
        assert(sums::sum(h, h, f) == 0);
    } else {
        assert(step_holds(t, row));
        lemma_count(t, row + 1);
    }
}

/// Suffix sums.
proof fn lemma_accumulate(t: BaseTables, row: int)
    requires
        0 <= row < t.height,
        forall|r: int| #![trigger step_holds(t, r)] 0 <= r < t.height - 1 ==> step_holds(t, r),
        sums::cong((t.main)(t.height - 1, 15), weighted_entry(t, t.height - 1)),
    ensures
        sums::cong((t.main)(row, 15), sums::sum(row, t.height, |i: int| weighted_entry(t, i))),
    decreases t.height - row,
{
    let f = |i: int| weighted_entry(t, i);
    let h = t.height;
    sums::lemma_sum_first(row, h, f);
    if row == h - 1 {
        assert(sums::sum(h, h, f) == 0);
    } else {
        assert(step_holds(t, row));
        lemma_accumulate(t, row + 1);
    }
}

/// An active row is preceded by active rows only.
proof fn lemma_flags_before(t: BaseTables, i: int, j: int)
    requires
        0 <= i <= j < t.height,
        air::bits(t, 12),
        forall|r: int| #![trigger step_holds(t, r)] 0 <= r < t.height - 1 ==> step_holds(t, r),
        flag_at(t, j) == 1,
    ensures
        flag_at(t, i) == 1,
    decreases j - i,
{
    if i < j {
        lemma_flags_before(t, i + 1, j);
        assert(step_holds(t, i));
        assert(air::is_bit((t.main)(i, 12)));
        let f = (t.main)(i, 12);
        let g = (t.main)(i + 1, 12);
        sums::lemma_cong_mod(g);
        assert(sums::cong(g, 1));
        sums::lemma_cong_mul(g, 1, 1 - f, 1 - f);
        assert(1 * (1 - f) == 1 - f);
        assert(sums::cong(g * (1 - f), 0));
        sums::lemma_cong_trans(1 - f, g * (1 - f), 0);
    }
}

/// A non-increasing row of flags with sum `k` is `k` ones, then zeros.
proof fn lemma_flags(t: BaseTables, k: int)
    requires
        t.height > 0,
        t.height < field::q(),
        0 <= k <= t.height,
        air::bits(t, 12),
        forall|r: int| #![trigger step_holds(t, r)] 0 <= r < t.height - 1 ==> step_holds(t, r),
        sums::cong(sums::sum(0, t.height, |i: int| flag_at(t, i)), k),
    ensures
        forall|i: int| 0 <= i < t.height ==> #[trigger] flag_at(t, i) == if i < k {
            1int
        } else {
            0
        },
{
    let f = |i: int| flag_at(t, i);
    let h = t.height;
    assert forall|i: int| 0 <= i < h implies 0 <= #[trigger] f(i) <= 1 by {
        assert(air::is_bit((t.main)(i, 12)));
    }
    lemma_bit_sum(f, 0, h);
    assert(sums::sum(0, h, f) == k);
    assert forall|i: int| 0 <= i < h implies #[trigger] flag_at(t, i) == if i < k {
        1int
    } else {
        0
    } by {
        assert(0 <= f(i) <= 1);
        if flag_at(t, i) == 1 && i >= k {
            // i + 1 ones already
            assert forall|j: int| 0 <= j < i + 1 implies #[trigger] f(j) == 1 by {
                lemma_flags_before(t, j, i);
            }
            lemma_ones(f, i + 1);
            sums::lemma_sum_split(0, i + 1, h, f);
            lemma_bit_sum(f, i + 1, h);
        }
        if flag_at(t, i) == 0 && i < k {
            // all from i on are zero
            assert forall|j: int| i <= j < h implies #[trigger] f(j) == 0 by {
                assert(0 <= f(j) <= 1);
                if flag_at(t, j) == 1 {
                    lemma_flags_before(t, i, j);
                }
            }
            sums::lemma_sum_zero(i, h, f);
            sums::lemma_sum_split(0, i, h, f);
            lemma_bit_sum(f, 0, i);
        }
    }
}

proof fn lemma_bit_sum(f: spec_fn(int) -> int, lo: int, hi: int)
    requires
        lo <= hi,
        forall|i: int| lo <= i < hi ==> 0 <= #[trigger] f(i) <= 1,
    ensures
        0 <= sums::sum(lo, hi, f) <= hi - lo,
    decreases hi - lo,
{
    if lo < hi {
        lemma_bit_sum(f, lo, hi - 1);
        assert(0 <= f(hi - 1) <= 1);
    }
}

proof fn lemma_ones(f: spec_fn(int) -> int, k: int)
    requires
        0 <= k,
        forall|i: int| 0 <= i < k ==> #[trigger] f(i) == 1,
    ensures
        sums::sum(0, k, f) == k,
    decreases k,
{
    if k > 0 {
        lemma_ones(f, k - 1);
        assert(f(k - 1) == 1);
    }
}

/// The weight column holds `2^i` while active and 0 afterwards.
proof fn lemma_weights(t: BaseTables, k: int, i: int)
    requires
        0 <= i < t.height,
        1 <= k,
        sums::cong((t.main)(0, 13), 1),
        forall|r: int| #![trigger step_holds(t, r)] 0 <= r < t.height - 1 ==> step_holds(t, r),
        forall|r: int| 0 <= r < t.height ==> #[trigger] flag_at(t, r) == if r < k {
            1int
        } else {
            0
        },
    ensures
        sums::cong(
            (t.main)(i, 13),
            if i < k {
                pow2(i as nat) as int
            } else {
                0
            },
        ),
    decreases i,
{
    if i == 0 {
        lemma2_to64();
    } else {
        lemma_weights(t, k, i - 1);
        assert(step_holds(t, i - 1));
        dft::lemma_pow2_step((i - 1) as nat);
        let w = (t.main)(i - 1, 13);
        let g = (t.main)(i, 12);
        assert(flag_at(t, i) == if i < k {
            1int
        } else {
            0
        });
        sums::lemma_cong_mod(g);
        if i < k {
            let p = pow2((i - 1) as nat) as int;
            sums::lemma_cong_mul(2 * w, 2 * p, g, 1);
            assert(2 * p * 1 == 2 * p);
            sums::lemma_cong_trans((t.main)(i, 13), 2 * w * g, 2 * p);
        } else {
            sums::lemma_cong_mul(2 * w, 2 * w, g, 0);
            assert(2 * w * 0 == 0);
            sums::lemma_cong_trans((t.main)(i, 13), 2 * w * g, 0);
        }
    }
}

/// Soundness of the range constraints: the message bits encode a value below
/// the bound.
pub proof fn law_range_constraints_bound_value(spec: RangeSpec, t: BaseTables)
    requires
        spec.valid(t.height),
        t.height < field::q(),
        air::bits(t, 9),
        range_relation(spec, t),
    ensures
        0 <= regev::low_value(
            crate::transfer::bit_values(t, 9),
            spec.value_bits as int,
        ) < spec.bound,
{
    let h = t.height;
    let k = spec.value_bits as int;
    let m = crate::transfer::bit_values(t, 9);
    let d = crate::transfer::bit_values(t, 14);
    lemma_count(t, 0);
    let flags = sums::sum(0, h, |i: int| flag_at(t, i));
    sums::lemma_cong_trans(flags, (t.main)(0, 16), k);
    lemma_flags(t, k);
    lemma_accumulate(t, 0);
    // The accumulated sum is the weighted sum of m + d over the active rows.
    let f = |i: int| weighted_entry(t, i);
    let g = |i: int| if i < k {
        (m[i] + d[i]) * pow2(i as nat)
    } else {
        0
    };
    assert forall|i: int| 0 <= i < h implies sums::cong(#[trigger] f(i), g(i)) by {
        lemma_weights(t, k, i);
        let x = (t.main)(i, 9);
        let y = (t.main)(i, 14);
        let w = (t.main)(i, 13);
        sums::lemma_cong_mod(x);
        sums::lemma_cong_mod(y);
        assert(sums::cong(x + y, m[i] + d[i]));
        if i < k {
            sums::lemma_cong_mul(x + y, m[i] + d[i], w, pow2(i as nat) as int);
        } else {
            sums::lemma_cong_mul(x + y, m[i] + d[i], w, 0);
            assert((m[i] + d[i]) * 0 == 0);
        }
    }
    sums::lemma_sum_cong(0, h, f, g);
    sums::lemma_sum_split(0, k, h, g);
    sums::lemma_sum_zero(k, h, g);
    let fm = |i: int| m[i] * pow2(i as nat);
    let fd = |i: int| d[i] * pow2(i as nat);
    assert forall|i: int| 0 <= i < k implies #[trigger] g(i) == fm(i) + fd(i) by {
        let p = pow2(i as nat) as int;
        let u = m[i];
        let v = d[i];
        assert((u + v) * p == u * p + v * p) by (nonlinear_arith);
    }
    sums::lemma_sum_add(0, k, fm, fd, g);
    let vm = regev::low_value(m, k);
    let vd = regev::low_value(d, k);
    assert(sums::sum(0, h, g) == vm + vd);
    sums::lemma_cong_trans(vm + vd, sums::sum(0, h, f), (t.main)(0, 15));
    sums::lemma_cong_trans(vm + vd, (t.main)(0, 15), spec.bound - 1);
    // Both sides are small, so they are equal.
    assert(regev::within(m, 0, 1)) by {
        assert forall|i: int| 0 <= i < m.len() implies 0 <= #[trigger] m[i] <= 1 by {
            assert(air::is_bit((t.main)(i, 9)));
        }
    }
    assert(regev::within(d, 0, 1)) by {
        assert forall|i: int| 0 <= i < d.len() implies 0 <= #[trigger] d[i] <= 1 by {
            assert(air::is_bit((t.main)(i, 14)));
        }
    }
    regev::lemma_low_bound(m, k, 1);
    regev::lemma_low_bound(d, k, 1);
    dft::lemma_pow2_monotone(k as nat, 29);
    lemma2_to64();
}

/// A trace belongs to one range only: what satisfies the constraints for one
/// bound and width satisfies them for no other.
pub proof fn law_range_is_bound_to_spec(x: RangeSpec, y: RangeSpec, t: BaseTables)
    requires
        x.valid(t.height),
        y.valid(t.height),
        range_relation(x, t),
        range_relation(y, t),
    ensures
        x == y,
{
    let b = (t.main)(0, 15);
    let k = (t.main)(0, 16);
    sums::lemma_cong_trans(x.bound - 1, b, y.bound - 1);
    sums::lemma_cong_trans(x.value_bits as int, k, y.value_bits as int);
    sums::lemma_cong_eq(x.bound - 1, y.bound - 1);
    sums::lemma_cong_eq(x.value_bits as int, y.value_bits as int);
    dft::lemma_pow2_monotone(x.value_bits as nat, 29);
    dft::lemma_pow2_monotone(y.value_bits as nat, 29);
    lemma2_to64();
}

// ---------------------------------------------------------------------------
// The constraints.
// ---------------------------------------------------------------------------
/// On all rows but the last, the constraint says what `p` says.
pub open spec fn checks_steps(c: Constraint, p: spec_fn(BaseTables, int) -> bool) -> bool {
    forall|t: Tables|
        t.base.height > 0 ==> (#[trigger] c.on_rows(t) <==> forall|row: int|
            #![trigger p(t.base, row)]
            0 <= row < t.base.height - 1 ==> p(t.base, row))
}

/// Everything is readable in a table of at least 17 columns.
pub open spec fn fits_range_table(c: Constraint) -> bool {
    forall|w: int, p: int, a: int, r: int, o: int, rows: int|
        #![trigger c.readable(w, p, a, r, o, rows)]
        17 <= w && rows < usize::MAX ==> c.readable(w, p, a, r, o, rows)
}

proof fn lemma_checks_steps(c: Constraint, e: Expr, p: spec_fn(BaseTables, int) -> bool)
    requires
        c.when == When::Transition,
        c.body == Body::Base(e),
        forall|t: BaseTables, row: int|
            0 <= row < t.height - 1 ==> (p(t, row) <==> sums::cong(#[trigger] e.value(t, row), 0)),
    ensures
        checks_steps(c, p),
{
    assert forall|t: Tables, row: int| 0 <= row < t.base.height - 1 implies (#[trigger] c.holds(
        t,
        row,
    ) <==> p(t.base, row)) by {
        assert(p(t.base, row) <==> sums::cong(e.value(t.base, row), 0));
    }
    assert forall|t: Tables| t.base.height > 0 implies (#[trigger] c.on_rows(t) <==> forall|
        row: int,
    |
        #![trigger p(t.base, row)]
        0 <= row < t.base.height - 1 ==> p(t.base, row)) by {
        if c.on_rows(t) {
            assert forall|row: int|
                #![trigger p(t.base, row)]
                0 <= row < t.base.height - 1 implies p(t.base, row) by {
                assert(c.holds(t, row));
            }
        }
    }
}

proof fn lemma_fits_range_table(c: Constraint, e: Expr)
    requires
        c.body == Body::Base(e),
        forall|w: int, p: int, row: int|
            17 <= w && row + 1 < usize::MAX ==> #[trigger] e.fits(w, p, row),
    ensures
        fits_range_table(c),
{
    assert forall|w: int, p: int, a: int, r: int, o: int, rows: int|
        #![trigger c.readable(w, p, a, r, o, rows)]
        17 <= w && rows < usize::MAX implies c.readable(w, p, a, r, o, rows) by {
        assert forall|row: int| 0 <= row < rows implies #[trigger] c.fits(w, p, a, r, o, row) by {
            assert(e.fits(w, p, row));
        }
    }
}

/// Column `col` is pinned to `value` on the first row.
pub open spec fn asserts_pin(c: Constraint, col: int, value: int) -> bool {
    c.asserts_base(When::FirstRow, |t: BaseTables, row: int| (t.main)(row, col) - value)
}

/// `d * (1 - flag) = 0` is asked on every row.
pub open spec fn asserts_inactive(c: Constraint) -> bool {
    c.asserts_base(
        When::Always,
        |t: BaseTables, row: int| (t.main)(row, 14) * (1 - (t.main)(row, 12)),
    )
}

/// `flag[i+1] * (1 - flag[i]) = 0` is asked on all rows but the last.
pub open spec fn asserts_flag_step(c: Constraint) -> bool {
    c.asserts_base(
        When::Transition,
        |t: BaseTables, row: int|
            (t.main)(symbolic::next_row(t, row), 12) * (1 - (t.main)(row, 12)),
    )
}

/// `w[i+1] - 2*w[i]*flag[i+1] = 0` is asked on all rows but the last.
pub open spec fn asserts_weight_step(c: Constraint) -> bool {
    c.asserts_base(
        When::Transition,
        |t: BaseTables, row: int|
            (t.main)(symbolic::next_row(t, row), 13) - 2 * (t.main)(row, 13) * (t.main)(
                symbolic::next_row(t, row),
                12,
            ),
    )
}

/// `acc[i] - (m[i] + d[i])*w[i] - acc[i+1] = 0` is asked on all rows but the
/// last.
pub open spec fn asserts_acc_step(c: Constraint) -> bool {
    c.asserts_base(
        When::Transition,
        |t: BaseTables, row: int|
            (t.main)(row, 15) - weighted_entry(t, row) - (t.main)(symbolic::next_row(t, row), 15),
    )
}

/// `cnt[i] - flag[i] - cnt[i+1] = 0` is asked on all rows but the last.
pub open spec fn asserts_cnt_step(c: Constraint) -> bool {
    c.asserts_base(
        When::Transition,
        |t: BaseTables, row: int|
            (t.main)(row, 16) - (t.main)(row, 12) - (t.main)(symbolic::next_row(t, row), 16),
    )
}

/// `acc - (m + d)*w = 0` is asked on the last row.
pub open spec fn asserts_acc_last(c: Constraint) -> bool {
    c.asserts_base(
        When::LastRow,
        |t: BaseTables, row: int| (t.main)(row, 15) - weighted_entry(t, row),
    )
}

/// `cnt - flag = 0` is asked on the last row.
pub open spec fn asserts_cnt_last(c: Constraint) -> bool {
    c.asserts_base(
        When::LastRow,
        |t: BaseTables, row: int| (t.main)(row, 16) - (t.main)(row, 12),
    )
}

/// The constraints of an encryption with a range proof, in order: the eight of
/// the encryption, then thirteen for the range.
pub open spec fn are_range_constraints(
    cs: Seq<Constraint>,
    n: int,
    delta: int,
    spec: RangeSpec,
) -> bool {
    &&& cs.len() == 21
    &&& air::are_enc_constraints(cs, n, delta)
    &&& air::asserts_bit(cs[8], 12)
    &&& air::asserts_bit(cs[9], 14)
    &&& asserts_inactive(cs[10])
    &&& asserts_pin(cs[11], 12, 1)
    &&& asserts_pin(cs[12], 13, 1)
    &&& asserts_pin(cs[13], 15, spec.bound - 1)
    &&& asserts_pin(cs[14], 16, spec.value_bits as int)
    &&& asserts_flag_step(cs[15])
    &&& asserts_weight_step(cs[16])
    &&& asserts_acc_step(cs[17])
    &&& asserts_cnt_step(cs[18])
    &&& asserts_acc_last(cs[19])
    &&& asserts_cnt_last(cs[20])
}

/// A constraint that steps to the next row of columns 12, 13, 15 and 16 only.
pub open spec fn steps_range_columns(c: Constraint) -> bool {
    forall|col: int|
        #[trigger] c.reads_next(col) ==> col == 12 || col == 13 || col == 15 || col == 16
}

fn next(col: usize) -> (r: Expr)
    ensures
        r == (Expr::Main { offset: 1, index: col }),
{
    Expr::Main { offset: 1, index: col }
}

/// What the current and the next row of a column stand for.
proof fn lemma_pair_value(t: BaseTables, row: int, col: usize)
    requires
        0 <= row < t.height,
    ensures
        air::column_expr(col as int).value(t, row) == (t.main)(row, col as int),
        (Expr::Main { offset: 1, index: col }).value(t, row) == (t.main)(
            symbolic::next_row(t, row),
            col as int,
        ),
        row < t.height - 1 ==> symbolic::next_row(t, row) == row + 1,
{
    vstd::arithmetic::div_mod::lemma_small_mod(row as nat, t.height as nat);
    if row < t.height - 1 {
        vstd::arithmetic::div_mod::lemma_small_mod((row + 1) as nat, t.height as nat);
    }
    reveal_with_fuel(Expr::value, 2);
}

/// Pins the first row of a column to a constant.
fn pin_first(col: usize, value: u32) -> (c: Constraint)
    requires
        col < 17,
    ensures
        forall|t: Tables|
            t.base.height > 0 ==> (#[trigger] c.on_rows(t) <==> sums::cong(
                (t.base.main)(0, col as int),
                value as int,
            )),
        asserts_pin(c, col as int, value as int),
        steps_range_columns(c),
        c.body_degree() == 1,
        fits_range_table(c),
{
    let e = Expr::Sub(Box::new(local(col)), Box::new(Expr::Constant(value)));
    let ghost g = e;
    let c = Constraint { when: When::FirstRow, body: Body::Base(e) };
    proof {
        reveal_with_fuel(Expr::value, 3);
        reveal_with_fuel(Expr::degree, 3);
        reveal_with_fuel(Expr::fits, 3);
        reveal_with_fuel(Expr::reads_next, 3);
        assert forall|t: Tables, row: int| 0 <= row < t.base.height implies #[trigger] c.residue(
            t,
            row,
        ) == Ext::of((t.base.main)(row, col as int) - value) by {
            air::lemma_column_value(t.base, row, col, col);
            assert(g.value(t.base, row) == (t.base.main)(row, col as int) - value);
        }
        assert forall|t: Tables| t.base.height > 0 implies (#[trigger] c.on_rows(t) <==> sums::cong(
            (t.base.main)(0, col as int),
            value as int,
        )) by {
            let x = (t.base.main)(0, col as int);
            assert(c.residue(t, 0) == Ext::of(x - value));
            assert(c.holds(t, 0) <==> sums::cong(x - value, 0));
        }
        lemma_fits_range_table(c, g);
    }
    c
}

/// `d * (1 - flag) = 0` on every row.
fn inactive_constraint() -> (c: Constraint)
    ensures
        forall|t: Tables|
            t.base.height > 0 ==> (#[trigger] c.on_rows(t) <==> inactive_clear(t.base)),
        asserts_inactive(c),
        steps_range_columns(c),
        c.body_degree() == 2,
        fits_range_table(c),
{
    let idle = Expr::Sub(Box::new(Expr::Constant(1)), Box::new(local(COL_FLAG)));
    let e = Expr::Mul(Box::new(local(COL_D)), Box::new(idle));
    let ghost g = e;
    let c = Constraint { when: When::Always, body: Body::Base(e) };
    proof {
        reveal_with_fuel(Expr::value, 4);
        reveal_with_fuel(Expr::degree, 4);
        reveal_with_fuel(Expr::fits, 4);
        reveal_with_fuel(Expr::reads_next, 4);
        assert forall|t: Tables, row: int| 0 <= row < t.base.height implies #[trigger] c.residue(
            t,
            row,
        ) == Ext::of((t.base.main)(row, 14) * (1 - (t.base.main)(row, 12))) by {
            air::lemma_column_value(t.base, row, COL_FLAG, COL_D);
            air::lemma_column_value(t.base, row, COL_D, COL_D);
            assert(g.value(t.base, row) == (t.base.main)(row, 14) * (1 - (t.base.main)(row, 12)));
        }
        assert forall|t: Tables, row: int| 0 <= row < t.base.height implies (#[trigger] c.holds(
            t,
            row,
        ) <==> sums::cong((t.base.main)(row, 14) * (1 - (t.base.main)(row, 12)), 0)) by {
            let x = (t.base.main)(row, 14) * (1 - (t.base.main)(row, 12));
            assert(c.residue(t, row) == Ext::of(x));
        }
        assert forall|t: Tables| t.base.height > 0 implies (#[trigger] c.on_rows(t)
            <==> inactive_clear(t.base)) by {
            if c.on_rows(t) {
                assert forall|row: int|
                    #![trigger (t.base.main)(row, 14)]
                    0 <= row < t.base.height implies sums::cong(
                    (t.base.main)(row, 14) * (1 - (t.base.main)(row, 12)),
                    0,
                ) by {
                    assert(c.holds(t, row));
                }
            }
        }
        lemma_fits_range_table(c, g);
    }
    c
}

/// `flag[i+1] * (1 - flag[i]) = 0`: the flags never rise.
fn flag_step() -> (c: Constraint)
    ensures
        checks_steps(
            c,
            |t: BaseTables, row: int|
                sums::cong((t.main)(row + 1, 12) * (1 - (t.main)(row, 12)), 0),
        ),
        asserts_flag_step(c),
        steps_range_columns(c),
        c.body_degree() == 2,
        fits_range_table(c),
{
    let idle = Expr::Sub(Box::new(Expr::Constant(1)), Box::new(local(COL_FLAG)));
    let e = Expr::Mul(Box::new(next(COL_FLAG)), Box::new(idle));
    let ghost g = e;
    let c = Constraint { when: When::Transition, body: Body::Base(e) };
    proof {
        let p = |t: BaseTables, row: int|
            sums::cong((t.main)(row + 1, 12) * (1 - (t.main)(row, 12)), 0);
        reveal_with_fuel(Expr::value, 4);
        reveal_with_fuel(Expr::degree, 4);
        reveal_with_fuel(Expr::fits, 4);
        reveal_with_fuel(Expr::reads_next, 4);
        assert forall|t: BaseTables, row: int| 0 <= row < t.height implies #[trigger] g.value(
            t,
            row,
        ) == (t.main)(symbolic::next_row(t, row), 12) * (1 - (t.main)(row, 12)) by {
            lemma_pair_value(t, row, COL_FLAG);
        }
        assert forall|t: BaseTables, row: int| 0 <= row < t.height - 1 implies (p(t, row)
            <==> sums::cong(#[trigger] g.value(t, row), 0)) by {
            lemma_pair_value(t, row, COL_FLAG);
        }
        lemma_checks_steps(c, g, p);
        lemma_fits_range_table(c, g);
    }
    c
}

/// `w[i+1] = 2*w[i]*flag[i+1]`.
fn weight_step() -> (c: Constraint)
    ensures
        checks_steps(
            c,
            |t: BaseTables, row: int|
                sums::cong(
                    (t.main)(row + 1, 13),
                    2 * (t.main)(row, 13) * (t.main)(row + 1, 12),
                ),
        ),
        asserts_weight_step(c),
        steps_range_columns(c),
        c.body_degree() == 2,
        fits_range_table(c),
{
    let doubled = Expr::Mul(Box::new(Expr::Constant(2)), Box::new(local(COL_W)));
    let masked = Expr::Mul(Box::new(doubled), Box::new(next(COL_FLAG)));
    let e = Expr::Sub(Box::new(next(COL_W)), Box::new(masked));
    let ghost g = e;
    let c = Constraint { when: When::Transition, body: Body::Base(e) };
    proof {
        let p = |t: BaseTables, row: int|
            sums::cong((t.main)(row + 1, 13), 2 * (t.main)(row, 13) * (t.main)(row + 1, 12));
        reveal_with_fuel(Expr::value, 5);
        reveal_with_fuel(Expr::degree, 5);
        reveal_with_fuel(Expr::fits, 5);
        reveal_with_fuel(Expr::reads_next, 5);
        assert forall|t: BaseTables, row: int| 0 <= row < t.height implies #[trigger] g.value(
            t,
            row,
        ) == (t.main)(symbolic::next_row(t, row), 13) - 2 * (t.main)(row, 13) * (t.main)(
            symbolic::next_row(t, row),
            12,
        ) by {
            lemma_pair_value(t, row, COL_FLAG);
            lemma_pair_value(t, row, COL_W);
        }
        assert forall|t: BaseTables, row: int| 0 <= row < t.height - 1 implies (p(t, row)
            <==> sums::cong(#[trigger] g.value(t, row), 0)) by {
            lemma_pair_value(t, row, COL_FLAG);
        }
        lemma_checks_steps(c, g, p);
        lemma_fits_range_table(c, g);
    }
    c
}

/// The expression `(m + d) * w`.
fn weighted_expr() -> (e: Expr)
    ensures
        forall|t: BaseTables, row: int|
            0 <= row < t.height ==> #[trigger] e.value(t, row) == weighted_entry(t, row),
        e.degree() == 2,
        forall|col: int| !#[trigger] e.reads_next(col),
        forall|w: int, p: int, row: int|
            17 <= w && row <= usize::MAX ==> #[trigger] e.fits(w, p, row),
{
    let sum = Expr::Add(Box::new(local(air::COL_M)), Box::new(local(COL_D)));
    let e = Expr::Mul(Box::new(sum), Box::new(local(COL_W)));
    proof {
        reveal_with_fuel(Expr::value, 4);
        reveal_with_fuel(Expr::degree, 4);
        reveal_with_fuel(Expr::fits, 4);
        reveal_with_fuel(Expr::reads_next, 4);
        assert forall|t: BaseTables, row: int| 0 <= row < t.height implies #[trigger] e.value(
            t,
            row,
        ) == weighted_entry(t, row) by {
            air::lemma_column_value(t, row, air::COL_M, COL_D);
            air::lemma_column_value(t, row, COL_D, COL_W);
            air::lemma_column_value(t, row, COL_W, COL_W);
        }
    }
    e
}

/// `acc[i] = (m[i] + d[i])*w[i] + acc[i+1]`.
fn acc_step() -> (c: Constraint)
    ensures
        checks_steps(
            c,
            |t: BaseTables, row: int|
                sums::cong((t.main)(row, 15), weighted_entry(t, row) + (t.main)(row + 1, 15)),
        ),
        asserts_acc_step(c),
        steps_range_columns(c),
        c.body_degree() == 2,
        fits_range_table(c),
{
    let we = weighted_expr();
    let ghost gw = we;
    let first = Expr::Sub(Box::new(local(COL_ACC)), Box::new(we));
    let e = Expr::Sub(Box::new(first), Box::new(next(COL_ACC)));
    let ghost g = e;
    let c = Constraint { when: When::Transition, body: Body::Base(e) };
    proof {
        let p = |t: BaseTables, row: int|
            sums::cong((t.main)(row, 15), weighted_entry(t, row) + (t.main)(row + 1, 15));
        reveal_with_fuel(Expr::value, 3);
        reveal_with_fuel(Expr::degree, 3);
        reveal_with_fuel(Expr::fits, 3);
        reveal_with_fuel(Expr::reads_next, 3);
        assert forall|t: BaseTables, row: int| 0 <= row < t.height implies #[trigger] g.value(
            t,
            row,
        ) == (t.main)(row, 15) - weighted_entry(t, row) - (t.main)(
            symbolic::next_row(t, row),
            15,
        ) by {
            lemma_pair_value(t, row, COL_ACC);
            assert(gw.value(t, row) == weighted_entry(t, row));
        }
        assert forall|t: BaseTables, row: int| 0 <= row < t.height - 1 implies (p(t, row)
            <==> sums::cong(#[trigger] g.value(t, row), 0)) by {
            lemma_pair_value(t, row, COL_FLAG);
        }
        lemma_checks_steps(c, g, p);
        assert forall|col: int| #[trigger] c.reads_next(col) implies col == 15 by {
            assert(!gw.reads_next(col));
        }
        assert forall|w: int, pv: int, row: int|
            17 <= w && row + 1 < usize::MAX implies #[trigger] g.fits(w, pv, row) by {
            assert(gw.fits(w, pv, row));
        }
        lemma_fits_range_table(c, g);
    }
    c
}

/// `cnt[i] = flag[i] + cnt[i+1]`.
fn cnt_step() -> (c: Constraint)
    ensures
        checks_steps(
            c,
            |t: BaseTables, row: int|
                sums::cong((t.main)(row, 16), (t.main)(row, 12) + (t.main)(row + 1, 16)),
        ),
        asserts_cnt_step(c),
        steps_range_columns(c),
        c.body_degree() == 1,
        fits_range_table(c),
{
    let first = Expr::Sub(Box::new(local(COL_CNT)), Box::new(local(COL_FLAG)));
    let e = Expr::Sub(Box::new(first), Box::new(next(COL_CNT)));
    let ghost g = e;
    let c = Constraint { when: When::Transition, body: Body::Base(e) };
    proof {
        let p = |t: BaseTables, row: int|
            sums::cong((t.main)(row, 16), (t.main)(row, 12) + (t.main)(row + 1, 16));
        reveal_with_fuel(Expr::value, 4);
        reveal_with_fuel(Expr::degree, 4);
        reveal_with_fuel(Expr::fits, 4);
        reveal_with_fuel(Expr::reads_next, 4);
        assert forall|t: BaseTables, row: int| 0 <= row < t.height implies #[trigger] g.value(
            t,
            row,
        ) == (t.main)(row, 16) - (t.main)(row, 12) - (t.main)(symbolic::next_row(t, row), 16) by {
            lemma_pair_value(t, row, COL_FLAG);
            lemma_pair_value(t, row, COL_CNT);
        }
        assert forall|t: BaseTables, row: int| 0 <= row < t.height - 1 implies (p(t, row)
            <==> sums::cong(#[trigger] g.value(t, row), 0)) by {
            lemma_pair_value(t, row, COL_FLAG);
        }
        lemma_checks_steps(c, g, p);
        lemma_fits_range_table(c, g);
    }
    c
}

/// `acc = (m + d)*w` on the last row.
fn acc_last() -> (c: Constraint)
    ensures
        forall|t: Tables|
            t.base.height > 0 ==> (#[trigger] c.on_rows(t) <==> sums::cong(
                (t.base.main)(t.base.height - 1, 15),
                weighted_entry(t.base, t.base.height - 1),
            )),
        asserts_acc_last(c),
        steps_range_columns(c),
        c.body_degree() == 2,
        fits_range_table(c),
{
    let we = weighted_expr();
    let ghost gw = we;
    let e = Expr::Sub(Box::new(local(COL_ACC)), Box::new(we));
    let ghost g = e;
    let c = Constraint { when: When::LastRow, body: Body::Base(e) };
    proof {
        reveal_with_fuel(Expr::value, 2);
        reveal_with_fuel(Expr::degree, 2);
        reveal_with_fuel(Expr::fits, 2);
        reveal_with_fuel(Expr::reads_next, 2);
        assert forall|t: Tables, row: int| 0 <= row < t.base.height implies #[trigger] c.residue(
            t,
            row,
        ) == Ext::of((t.base.main)(row, 15) - weighted_entry(t.base, row)) by {
            air::lemma_column_value(t.base, row, COL_ACC, COL_ACC);
            assert(gw.value(t.base, row) == weighted_entry(t.base, row));
            assert(g.value(t.base, row) == (t.base.main)(row, 15) - weighted_entry(t.base, row));
        }
        assert forall|t: Tables| t.base.height > 0 implies (#[trigger] c.on_rows(t) <==> sums::cong(
            (t.base.main)(t.base.height - 1, 15),
            weighted_entry(t.base, t.base.height - 1),
        )) by {
            let row = t.base.height - 1;
            let x = (t.base.main)(row, 15);
            let y = weighted_entry(t.base, row);
            assert(c.residue(t, row) == Ext::of(x - y));
            assert(c.holds(t, row) <==> sums::cong(x - y, 0));
        }
        assert forall|col: int| #[trigger] c.reads_next(col) implies col == 15 by {
            assert(!gw.reads_next(col));
        }
        assert forall|w: int, pv: int, row: int|
            17 <= w && row + 1 < usize::MAX implies #[trigger] g.fits(w, pv, row) by {
            assert(gw.fits(w, pv, row));
        }
        lemma_fits_range_table(c, g);
    }
    c
}

/// `cnt = flag` on the last row.
fn cnt_last() -> (c: Constraint)
    ensures
        forall|t: Tables|
            t.base.height > 0 ==> (#[trigger] c.on_rows(t) <==> sums::cong(
                (t.base.main)(t.base.height - 1, 16),
                (t.base.main)(t.base.height - 1, 12),
            )),
        asserts_cnt_last(c),
        steps_range_columns(c),
        c.body_degree() == 1,
        fits_range_table(c),
{
    let e = Expr::Sub(Box::new(local(COL_CNT)), Box::new(local(COL_FLAG)));
    let ghost g = e;
    let c = Constraint { when: When::LastRow, body: Body::Base(e) };
    proof {
        reveal_with_fuel(Expr::value, 3);
        reveal_with_fuel(Expr::degree, 3);
        reveal_with_fuel(Expr::fits, 3);
        reveal_with_fuel(Expr::reads_next, 3);
        assert forall|t: Tables, row: int| 0 <= row < t.base.height implies #[trigger] c.residue(
            t,
            row,
        ) == Ext::of((t.base.main)(row, 16) - (t.base.main)(row, 12)) by {
            air::lemma_column_value(t.base, row, COL_CNT, COL_FLAG);
            air::lemma_column_value(t.base, row, COL_FLAG, COL_FLAG);
            assert(g.value(t.base, row) == (t.base.main)(row, 16) - (t.base.main)(row, 12));
        }
        assert forall|t: Tables| t.base.height > 0 implies (#[trigger] c.on_rows(t) <==> sums::cong(
            (t.base.main)(t.base.height - 1, 16),
            (t.base.main)(t.base.height - 1, 12),
        )) by {
            let row = t.base.height - 1;
            let x = (t.base.main)(row, 16);
            let y = (t.base.main)(row, 12);
            assert(c.residue(t, row) == Ext::of(x - y));
            assert(c.holds(t, row) <==> sums::cong(x - y, 0));
        }
        lemma_fits_range_table(c, g);
    }
    c
}

/// Appends a constraint that reads only the 17 main columns.
fn push_range(cs: &mut Vec<Constraint>, c: Constraint)
    requires
        fits_range_table(c),
        c.when.degree() + c.body_degree() <= 3,
    ensures
        final(cs)@ == old(cs)@.push(c),
        forall|t: Tables|
            #[trigger] symbolic::satisfied(final(cs)@, t) <==> symbolic::satisfied(old(cs)@, t)
                && c.on_rows(t),
        range_list(old(cs)@) ==> range_list(final(cs)@),
{
    let ghost before = cs@;
    let ghost g = c;
    push_constraint(cs, c);
    proof {
        if range_list(before) {
            assert forall|p: int, o: int, rows: int|
                #![trigger symbolic::all_readable(cs@, 17, p, 10, 10, o, rows)]
                rows < usize::MAX implies symbolic::all_readable(cs@, 17, p, 10, 10, o, rows) by {
                assert(g.readable(17, p, 10, 10, o, rows));
                assert(symbolic::all_readable(before, 17, p, 10, 10, o, rows));
            }
        }
    }
}

/// Low degree, and readable in an encryption trace with a range proof.
pub open spec fn range_list(cs: Seq<Constraint>) -> bool {
    &&& air::low_degree(cs)
    &&& forall|p: int, o: int, rows: int|
        #![trigger symbolic::all_readable(cs, 17, p, 10, 10, o, rows)]
        rows < usize::MAX ==> symbolic::all_readable(cs, 17, p, 10, 10, o, rows)
}

/// Constraint system for one Regev encryption with a plaintext range proof.
#[derive(Clone, Debug)]
pub struct RegevRangeAir {
    pub enc: RegevEncAir,
    pub spec: RangeSpec,
}

impl RegevRangeAir {
    pub fn new(n: usize, delta: F, spec: RangeSpec) -> (r: RegevRangeAir)
        requires
            dft::is_pow2(n as int),
            spec.valid(n as int),
        ensures
            r.enc.n == n,
            r.enc.delta == delta,
            r.spec == spec,
    {
        RegevRangeAir { enc: RegevEncAir::new(n, delta), spec }
    }

    pub fn width(&self) -> (r: usize)
        ensures
            r == 17,
    {
        RNUM_COLS
    }

    /// The public values are those of the encryption.
    pub fn num_public_values(&self) -> (r: usize)
        requires
            4 * self.enc.n <= usize::MAX,
        ensures
            r == 4 * self.enc.n,
    {
        self.enc.num_public_values()
    }

    /// The columns that constraints read on the next row.
    pub fn main_next_row_columns(&self) -> (r: Vec<usize>)
        ensures
            r@ == seq![12usize, 13usize, 15usize, 16usize],
    {
        let mut r: Vec<usize> = Vec::new();
        r.push(COL_FLAG);
        r.push(COL_W);
        r.push(COL_ACC);
        r.push(COL_CNT);
        r
    }

    pub fn max_constraint_degree(&self) -> (r: Option<usize>)
        ensures
            r == Some(3usize),
    {
        Some(3)
    }

    /// The evaluation arguments are those of the encryption.
    pub fn get_lookups(&self) -> (r: Vec<Lookup>)
        ensures
            air::is_enc_lookups(r@),
    {
        self.enc.get_lookups()
    }

    /// The constraints of the encryption and of the range.
    pub fn eval(&self) -> (cs: Vec<Constraint>)
        requires
            dft::is_pow2(self.enc.n as int),
            self.spec.valid(self.enc.n as int),
        ensures
            forall|t: Tables|
                t.base.height > 0 ==> (#[trigger] symbolic::satisfied(cs@, t)
                    <==> air::enc_relation(self.enc.n as int, self.enc.delta@, t) && range_relation(
                    self.spec,
                    t.base,
                )),
            range_list(cs@),
            are_range_constraints(
                cs@,
                self.enc.n as int,
                self.enc.delta@,
                self.spec,
            ),
            symbolic::next_columns_within(cs@, set![12int, 13int, 15int, 16int]),
    {
        proof {
            dft::lemma_pow2_monotone(self.spec.value_bits as nat, 29);
            lemma2_to64();
        }
        let mut cs = self.enc.eval();
        let ghost s0 = cs@;
        proof {
            assert(range_list(s0)) by {
                assert forall|p: int, o: int, rows: int|
                    #![trigger symbolic::all_readable(s0, 17, p, 10, 10, o, rows)]
                    rows < usize::MAX implies symbolic::all_readable(
                    s0,
                    17,
                    p,
                    10,
                    10,
                    o,
                    rows,
                ) by {
                    assert(symbolic::all_readable(s0, 12, p, 10, 10, o, rows));
                    lemma_widen(s0, p, o, rows);
                }
            }
        }
        let c1 = bit_constraint(COL_FLAG);
        let ghost g1 = c1;
        push_range(&mut cs, c1);
        let ghost s1 = cs@;
        let c2 = bit_constraint(COL_D);
        let ghost g2 = c2;
        push_range(&mut cs, c2);
        let ghost s2 = cs@;
        let c3 = inactive_constraint();
        let ghost g3 = c3;
        push_range(&mut cs, c3);
        let ghost s3 = cs@;
        let c4 = pin_first(COL_FLAG, 1);
        let ghost g4 = c4;
        push_range(&mut cs, c4);
        let ghost s4 = cs@;
        let c5 = pin_first(COL_W, 1);
        let ghost g5 = c5;
        push_range(&mut cs, c5);
        let ghost s5 = cs@;
        let c6 = pin_first(COL_ACC, (self.spec.bound - 1) as u32);
        let ghost g6 = c6;
        push_range(&mut cs, c6);
        let ghost s6 = cs@;
        let c7 = pin_first(COL_CNT, self.spec.value_bits as u32);
        let ghost g7 = c7;
        push_range(&mut cs, c7);
        let ghost s7 = cs@;
        let c8 = flag_step();
        let ghost g8 = c8;
        push_range(&mut cs, c8);
        let ghost s8 = cs@;
        let c9 = weight_step();
        let ghost g9 = c9;
        push_range(&mut cs, c9);
        let ghost s9 = cs@;
        let c10 = acc_step();
        let ghost g10 = c10;
        push_range(&mut cs, c10);
        let ghost s10 = cs@;
        let c11 = cnt_step();
        let ghost g11 = c11;
        push_range(&mut cs, c11);
        let ghost s11 = cs@;
        let c12 = acc_last();
        let ghost g12 = c12;
        push_range(&mut cs, c12);
        let ghost s12 = cs@;
        let c13 = cnt_last();
        let ghost g13 = c13;
        push_range(&mut cs, c13);
        proof {
            assert forall|t: Tables| t.base.height > 0 implies (#[trigger] symbolic::satisfied(
                cs@,
                t,
            ) <==> air::enc_relation(self.enc.n as int, self.enc.delta@, t) && range_relation(
                self.spec,
                t.base,
            )) by {
                let b = t.base;
                assert(symbolic::satisfied(cs@, t) <==> symbolic::satisfied(s12, t) && g13.on_rows(
                    t,
                ));
                assert(symbolic::satisfied(s12, t) <==> symbolic::satisfied(s11, t) && g12.on_rows(
                    t,
                ));
                assert(symbolic::satisfied(s11, t) <==> symbolic::satisfied(s10, t) && g11.on_rows(
                    t,
                ));
                assert(symbolic::satisfied(s10, t) <==> symbolic::satisfied(s9, t) && g10.on_rows(
                    t,
                ));
                assert(symbolic::satisfied(s9, t) <==> symbolic::satisfied(s8, t) && g9.on_rows(t));
                assert(symbolic::satisfied(s8, t) <==> symbolic::satisfied(s7, t) && g8.on_rows(t));
                assert(symbolic::satisfied(s7, t) <==> symbolic::satisfied(s6, t) && g7.on_rows(t));
                assert(symbolic::satisfied(s6, t) <==> symbolic::satisfied(s5, t) && g6.on_rows(t));
                assert(symbolic::satisfied(s5, t) <==> symbolic::satisfied(s4, t) && g5.on_rows(t));
                assert(symbolic::satisfied(s4, t) <==> symbolic::satisfied(s3, t) && g4.on_rows(t));
                assert(symbolic::satisfied(s3, t) <==> symbolic::satisfied(s2, t) && g3.on_rows(t));
                assert(symbolic::satisfied(s2, t) <==> symbolic::satisfied(s1, t) && g2.on_rows(t));
                assert(symbolic::satisfied(s1, t) <==> symbolic::satisfied(s0, t) && g1.on_rows(t));
                assert(g1.on_rows(t) <==> air::bits(b, 12));
                assert(g2.on_rows(t) <==> air::bits(b, 14));
                lemma_steps_conjunction(t, g8, g9, g10, g11);
            }
        }
        cs
    }
}

/// A wider main table is still readable.
proof fn lemma_widen(cs: Seq<Constraint>, p: int, o: int, rows: int)
    requires
        symbolic::all_readable(cs, 12, p, 10, 10, o, rows),
    ensures
        symbolic::all_readable(cs, 17, p, 10, 10, o, rows),
{
    assert forall|i: int| 0 <= i < cs.len() implies (#[trigger] cs[i]).readable(
        17,
        p,
        10,
        10,
        o,
        rows,
    ) by {
        assert(cs[i].readable(12, p, 10, 10, o, rows));
        assert forall|row: int| 0 <= row < rows implies #[trigger] cs[i].fits(
            17,
            p,
            10,
            10,
            o,
            row,
        ) by {
            assert(cs[i].fits(12, p, 10, 10, o, row));
            match cs[i].body {
                Body::Base(e) => lemma_widen_base(e, p, row),
                Body::Ext(e) => lemma_widen_ext(e, p, o, row),
            }
        }
    }
}

proof fn lemma_widen_base(e: Expr, p: int, row: int)
    requires
        e.fits(12, p, row),
    ensures
        e.fits(17, p, row),
    decreases e,
{
    match e {
        Expr::Add(x, y) => {
            lemma_widen_base(*x, p, row);
            lemma_widen_base(*y, p, row);
        },
        Expr::Sub(x, y) => {
            lemma_widen_base(*x, p, row);
            lemma_widen_base(*y, p, row);
        },
        Expr::Neg(x) => {
            lemma_widen_base(*x, p, row);
        },
        Expr::Mul(x, y) => {
            lemma_widen_base(*x, p, row);
            lemma_widen_base(*y, p, row);
        },
        _ => {},
    }
}

proof fn lemma_widen_ext(e: symbolic::ExtExpr, p: int, o: int, row: int)
    requires
        e.fits(12, p, 10, 10, o, row),
    ensures
        e.fits(17, p, 10, 10, o, row),
    decreases e,
{
    match e {
        symbolic::ExtExpr::Base(b) => lemma_widen_base(b, p, row),
        symbolic::ExtExpr::Add(x, y) => {
            lemma_widen_ext(*x, p, o, row);
            lemma_widen_ext(*y, p, o, row);
        },
        symbolic::ExtExpr::Sub(x, y) => {
            lemma_widen_ext(*x, p, o, row);
            lemma_widen_ext(*y, p, o, row);
        },
        symbolic::ExtExpr::Mul(x, y) => {
            lemma_widen_ext(*x, p, o, row);
            lemma_widen_ext(*y, p, o, row);
        },
        symbolic::ExtExpr::Square(x) => {
            lemma_widen_ext(*x, p, o, row);
        },
        _ => {},
    }
}

/// The four transition constraints together are the step relation.
proof fn lemma_steps_conjunction(
    t: Tables,
    a: Constraint,
    b: Constraint,
    c: Constraint,
    d: Constraint,
)
    requires
        t.base.height > 0,
        checks_steps(
            a,
            |t: BaseTables, row: int|
                sums::cong((t.main)(row + 1, 12) * (1 - (t.main)(row, 12)), 0),
        ),
        checks_steps(
            b,
            |t: BaseTables, row: int|
                sums::cong(
                    (t.main)(row + 1, 13),
                    2 * (t.main)(row, 13) * (t.main)(row + 1, 12),
                ),
        ),
        checks_steps(
            c,
            |t: BaseTables, row: int|
                sums::cong((t.main)(row, 15), weighted_entry(t, row) + (t.main)(row + 1, 15)),
        ),
        checks_steps(
            d,
            |t: BaseTables, row: int|
                sums::cong((t.main)(row, 16), (t.main)(row, 12) + (t.main)(row + 1, 16)),
        ),
    ensures
        (a.on_rows(t) && b.on_rows(t) && c.on_rows(t) && d.on_rows(t)) <==> forall|row: int|
            #![trigger step_holds(t.base, row)]
            0 <= row < t.base.height - 1 ==> step_holds(t.base, row),
{
    let pa = |t: BaseTables, row: int|
        sums::cong((t.main)(row + 1, 12) * (1 - (t.main)(row, 12)), 0);
    let pb = |t: BaseTables, row: int|
        sums::cong((t.main)(row + 1, 13), 2 * (t.main)(row, 13) * (t.main)(row + 1, 12));
    let pc = |t: BaseTables, row: int|
        sums::cong((t.main)(row, 15), weighted_entry(t, row) + (t.main)(row + 1, 15));
    let pd = |t: BaseTables, row: int|
        sums::cong((t.main)(row, 16), (t.main)(row, 12) + (t.main)(row + 1, 16));
    assert forall|row: int| #[trigger] step_holds(t.base, row) <==> pa(t.base, row) && pb(
        t.base,
        row,
    ) && pc(t.base, row) && pd(t.base, row) by {}
    if forall|row: int|
        #![trigger step_holds(t.base, row)]
        0 <= row < t.base.height - 1 ==> step_holds(t.base, row) {
        assert forall|row: int|
            #![trigger pa(t.base, row)]
            0 <= row < t.base.height - 1 implies pa(t.base, row) by {
            assert(step_holds(t.base, row));
        }
        assert forall|row: int|
            #![trigger pb(t.base, row)]
            0 <= row < t.base.height - 1 implies pb(t.base, row) by {
            assert(step_holds(t.base, row));
        }
        assert forall|row: int|
            #![trigger pc(t.base, row)]
            0 <= row < t.base.height - 1 implies pc(t.base, row) by {
            assert(step_holds(t.base, row));
        }
        assert forall|row: int|
            #![trigger pd(t.base, row)]
            0 <= row < t.base.height - 1 implies pd(t.base, row) by {
            assert(step_holds(t.base, row));
        }
    }
    if a.on_rows(t) && b.on_rows(t) && c.on_rows(t) && d.on_rows(t) {
        assert forall|row: int|
            #![trigger step_holds(t.base, row)]
            0 <= row < t.base.height - 1 implies step_holds(t.base, row) by {
            assert(pa(t.base, row));
            assert(pb(t.base, row));
            assert(pc(t.base, row));
            assert(pd(t.base, row));
        }
    }
}

// ---------------------------------------------------------------------------
// The trace.
// ---------------------------------------------------------------------------
/// The complement of the value: `bound - 1 - value`.
pub open spec fn complement(spec: RangeSpec, m: Seq<int>) -> int {
    spec.bound - 1 - regev::low_value(m, spec.value_bits as int)
}

/// Complement bit `i`, zero where inactive.
pub open spec fn complement_bit(spec: RangeSpec, m: Seq<int>, i: int) -> int {
    if i < spec.value_bits {
        (complement(spec, m) / pow2(i as nat) as int) % 2
    } else {
        0
    }
}

/// What row `i` contributes to the accumulated sum.
pub open spec fn contribution(spec: RangeSpec, m: Seq<int>, i: int) -> int {
    if i < spec.value_bits {
        (m[i] + complement_bit(spec, m, i)) * pow2(i as nat)
    } else {
        0
    }
}

/// What is left of `bound - 1` from row `i` on.
pub open spec fn remaining(spec: RangeSpec, m: Seq<int>, i: int) -> int {
    spec.bound - 1 - sums::sum(0, i, |j: int| contribution(spec, m, j))
}

/// Entry (i, col) of the range columns, modulo `q`.
pub open spec fn range_entry(spec: RangeSpec, m: Seq<int>, i: int, col: int) -> int {
    if col == 12 {
        if i < spec.value_bits {
            1
        } else {
            0
        }
    } else if col == 13 {
        if i < spec.value_bits {
            pow2(i as nat) as int
        } else {
            0
        }
    } else if col == 14 {
        complement_bit(spec, m, i)
    } else if col == 15 {
        remaining(spec, m, i)
    } else {
        if i < spec.value_bits {
            spec.value_bits - i
        } else {
            0
        }
    }
}

/// The contributions of the active rows sum to `bound - 1`.
pub proof fn lemma_contributions(spec: RangeSpec, m: Seq<int>, n: int)
    requires
        spec.valid(n),
        m.len() >= spec.value_bits,
        0 <= regev::low_value(m, spec.value_bits as int) < spec.bound,
    ensures
        sums::sum(0, n, |j: int| contribution(spec, m, j)) == spec.bound - 1,
        sums::sum(0, spec.value_bits as int, |j: int| contribution(spec, m, j)) == spec.bound - 1,
{
    let k = spec.value_bits as int;
    let comp = complement(spec, m);
    let g = |j: int| contribution(spec, m, j);
    let bits = regev::bits_of(comp, k as nat);
    let fm = |j: int| m[j] * pow2(j as nat);
    let fd = |j: int| bits[j] * pow2(j as nat);
    assert forall|j: int| 0 <= j < k implies #[trigger] g(j) == fm(j) + fd(j) by {
        let p = pow2(j as nat) as int;
        let u = m[j];
        let v = bits[j];
        assert((u + v) * p == u * p + v * p) by (nonlinear_arith);
    }
    sums::lemma_sum_add(0, k, fm, fd, g);
    dft::lemma_pow2_monotone(k as nat, 29);
    lemma2_to64();
    crate::correctness::law_encoding_roundtrip(comp as u64, k as nat);
    assert(regev::weighted(bits) == sums::sum(0, k, fd));
    sums::lemma_sum_split(0, k, n, g);
    sums::lemma_sum_zero(k, n, g);
}

/// As long as rows are left, what remains is not negative.
pub proof fn lemma_remaining_range(spec: RangeSpec, m: Seq<int>, n: int, i: int)
    requires
        spec.valid(n),
        m.len() >= spec.value_bits,
        forall|j: int| 0 <= j < spec.value_bits ==> 0 <= #[trigger] m[j] <= 1,
        0 <= regev::low_value(m, spec.value_bits as int) < spec.bound,
        0 <= i <= n,
    ensures
        0 <= remaining(spec, m, i) < spec.bound,
        i < n ==> remaining(spec, m, i) >= contribution(spec, m, i) && contribution(spec, m, i)
            >= 0,
        i < n ==> remaining(spec, m, i + 1) == remaining(spec, m, i) - contribution(spec, m, i),
{
    let g = |j: int| contribution(spec, m, j);
    lemma_contributions(spec, m, n);
    assert forall|j: int| 0 <= j < n implies #[trigger] g(j) >= 0 by {
        if j < spec.value_bits {
            assert(0 <= m[j] <= 1);
            let p = pow2(j as nat) as int;
            lemma_pow2_pos(j as nat);
            let v = m[j] + complement_bit(spec, m, j);
            assert(v * p >= 0) by (nonlinear_arith)
                requires
                    v >= 0,
                    p >= 0,
            ;
        }
    }
    sums::lemma_sum_split(0, i, n, g);
    lemma_nonnegative(g, 0, i);
    lemma_nonnegative(g, i, n);
    if i < n {
        assert(g(i) >= 0);
        sums::lemma_sum_split(0, i + 1, n, g);
        lemma_nonnegative(g, i + 1, n);
    }
}

proof fn lemma_nonnegative(f: spec_fn(int) -> int, lo: int, hi: int)
    requires
        forall|i: int| lo <= i < hi ==> #[trigger] f(i) >= 0,
    ensures
        sums::sum(lo, hi, f) >= 0,
    decreases hi - lo,
{
    if lo < hi {
        lemma_nonnegative(f, lo, hi - 1);
        assert(f(hi - 1) >= 0);
    }
}

/// The value in the low `bits` message bits.
pub fn message_value(m: &[u8], bits: usize) -> (v: u64)
    requires
        bits <= 29,
        bits <= m@.len(),
        forall|j: int| 0 <= j < bits ==> #[trigger] m@[j] <= 1,
    ensures
        v == regev::low_value(regev::bytes(m@), bits as int),
{
    let ghost mv = regev::bytes(m@);
    let ghost f = |i: int| mv[i] * pow2(i as nat);
    let mut v: u64 = 0;
    let mut p: u64 = 1;
    let mut i: usize = 0;
    proof {
        lemma2_to64();
    }
    while i < bits
        invariant
            i <= bits <= 29,
            bits <= m@.len(),
            mv == regev::bytes(m@),
            f == (|i: int| mv[i] * pow2(i as nat)),
            forall|j: int| 0 <= j < bits ==> #[trigger] m@[j] <= 1,
            p == pow2(i as nat),
            v == sums::sum(0, i as int, f),
            v < p,
        decreases bits - i,
    {
        proof {
            dft::lemma_pow2_step(i as nat);
            dft::lemma_pow2_monotone(i as nat + 1, 29);
            lemma2_to64();
            assert(f(i as int) == m@[i as int] * p);
            assert(0 * p == 0 && 1 * p == p);
        }
        if m[i] == 1 {
            v = v + p;
        }
        p = p * 2;
        i = i + 1;
    }
    v
}

/// Everything that a range trace needs of its inputs: the value must be in
/// range.
pub open spec fn in_range(spec: RangeSpec, m: Seq<int>, n: int) -> bool {
    &&& spec.valid(n)
    &&& m.len() >= n
    &&& forall|j: int| 0 <= j < spec.value_bits ==> 0 <= #[trigger] m[j] <= 1
    &&& regev::low_value(m, spec.value_bits as int) < spec.bound
}

/// Build the main trace for one ciphertext with a range proof.
///
/// The value must be below the bound: otherwise no complement exists.
#[verifier::rlimit(40)]
pub fn generate_range_trace(
    pk: &PublicKey,
    ct: &Ciphertext,
    witness: &EncryptionWitness,
    spec: RangeSpec,
) -> (out: Matrix)
    requires
        air::covers(pk@, ct@, witness@, pk.a@.len() as int),
        in_range(spec, witness@.m, pk.a@.len() as int),
    ensures
        out.wf(),
        out.width == 17,
        out.rows() == pk.a@.len(),
        forall|i: int, col: int|
            #![trigger out.cell(i, col)]
            0 <= i < pk.a@.len() && 0 <= col < 17 ==> out.cell(i, col) == if col < 12 {
                air::trace_entry(pk@, ct@, witness@, i, col) % field::q()
            } else {
                range_entry(spec, witness@.m, i, col) % field::q()
            },
{
    let n: usize = pk.a.len();
    let ghost m = witness@.m;
    let ghost k = spec.value_bits as int;
    proof {
        lemma2_to64();
        dft::lemma_pow2_monotone(k as nat, 29);
        assert(regev::low_value(m, k) >= 0) by {
            let f = |i: int| m[i] * pow2(i as nat);
            assert forall|j: int| 0 <= j < k implies #[trigger] f(j) >= 0 by {
                let p = pow2(j as nat) as int;
                let b = m[j];
                assert(b * p >= 0) by (nonlinear_arith)
                    requires
                        b >= 0,
                        p >= 0,
                ;
            }
            lemma_nonnegative(f, 0, k);
        }
        assert forall|j: int| 0 <= j < spec.value_bits implies #[trigger] witness.m@[j] <= 1 by {
            assert(m[j] <= 1);
        }
    }
    let value: u64 = message_value(&witness.m, spec.value_bits);
    let mut rest: u64 = spec.bound - 1 - value;
    let mut weight: u64 = 1;
    let mut acc: u64 = spec.bound - 1;
    let mut values: Vec<F> = Vec::new();
    let mut i: usize = 0;
    proof {
        assert(complement(spec, m) / 1 == complement(spec, m));
    }
    while i < n
        invariant
            i <= n,
            n == pk.a@.len(),
            m == witness@.m,
            k == spec.value_bits,
            air::covers(pk@, ct@, witness@, n as int),
            in_range(spec, m, n as int),
            regev::low_value(m, k) >= 0,
            i <= k ==> rest as int == complement(spec, m) / pow2(i as nat) as int,
            i <= k ==> weight == pow2(i as nat),
            acc == remaining(spec, m, i as int),
            acc < spec.bound,
            spec.bound <= 0x2000_0000,
            values@.len() == i * 17,
            forall|r: int, col: int|
                #![trigger values@[r * 17 + col]]
                0 <= r < i && 0 <= col < 17 ==> values@[r * 17 + col]@ == if col < 12 {
                    air::trace_entry(pk@, ct@, witness@, r, col) % field::q()
                } else {
                    range_entry(spec, m, r, col) % field::q()
                },
        decreases n - i,
    {
        let ghost before = values@;
        air::push_row(&mut values, pk, ct, witness, i);
        let ghost enc_row = values@;
        let active: bool = i < spec.value_bits;
        let d: u64 = if active {
            rest % 2
        } else {
            0
        };
        let w: u64 = if active {
            weight
        } else {
            0
        };
        proof {
            lemma_remaining_range(spec, m, n as int, i as int);
            if active {
                dft::lemma_pow2_step(i as nat);
                dft::lemma_pow2_monotone(i as nat + 1, 29);
                lemma2_to64();
                vstd::arithmetic::div_mod::lemma_div_denominator(
                    complement(spec, m),
                    pow2(i as nat) as int,
                    2,
                );
                assert(pow2(i as nat) as int * 2 == pow2(i as nat + 1));
                assert(d == complement_bit(spec, m, i as int));
                assert(0 <= m[i as int] <= 1);
            }
        }
        values.push(F::from_u32(if active {
            1
        } else {
            0
        }));
        values.push(F::from_u32(w as u32));
        values.push(F::from_u32(d as u32));
        values.push(F::from_u32(acc as u32));
        values.push(F::from_u32(if active {
            (spec.value_bits - i) as u32
        } else {
            0
        }));
        proof {
            assert forall|r: int, col: int|
                #![trigger values@[r * 17 + col]]
                0 <= r < i + 1 && 0 <= col < 17 implies values@[r * 17 + col]@ == if col < 12 {
                air::trace_entry(pk@, ct@, witness@, r, col) % field::q()
            } else {
                range_entry(spec, m, r, col) % field::q()
            } by {
                let p = r * 17 + col;
                if r < i {
                    assert(values@[p] == enc_row[p]);
                    assert(enc_row[p] == before[p]);
                } else if col < 12 {
                    assert(values@[p] == enc_row[before.len() + col]);
                }
            }
        }
        if active {
            proof {
                let b = m[i as int] + d;
                assert(0 <= b <= 2);
                assert(contribution(spec, m, i as int) == b * weight);
                if b == 0 {
                    assert(0 * weight == 0);
                } else if b == 1 {
                    assert(1 * weight == weight);
                } else {
                    assert(2 * weight == weight + weight);
                }
            }
            let sum: u64 = witness.m[i] as u64 + d;
            let part: u64 = if sum == 0 {
                0
            } else if sum == 1 {
                weight
            } else {
                weight + weight
            };
            acc = acc - part;
            weight = weight * 2;
            rest = rest / 2;
        }
        i = i + 1;
    }
    let out = Matrix { values, width: RNUM_COLS };
    proof {
        symbolic::lemma_rows(out.values@.len() as int, n as int, 17);
    }
    out
}

/// Completeness of the range constraints: the range columns of a value below
/// the bound satisfy them.
pub proof fn law_in_range_value_satisfies(spec: RangeSpec, t: BaseTables, m: Seq<int>)
    requires
        in_range(spec, m, t.height),
        forall|i: int, col: int|
            #![trigger (t.main)(i, col)]
            0 <= i < t.height && 12 <= col < 17 ==> (t.main)(i, col) == range_entry(
                spec,
                m,
                i,
                col,
            ) % field::q(),
        forall|i: int|
            #![trigger (t.main)(i, 9)]
            0 <= i < t.height ==> (t.main)(i, 9) == m[i] % field::q(),
    ensures
        range_relation(spec, t),
{
    let n = t.height;
    let k = spec.value_bits as int;
    lemma2_to64();
    dft::lemma_pow2_monotone(k as nat, 29);
    assert(regev::low_value(m, k) >= 0) by {
        let f = |i: int| m[i] * pow2(i as nat);
        assert forall|j: int| 0 <= j < k implies #[trigger] f(j) >= 0 by {
            let p = pow2(j as nat) as int;
            let b = m[j];
            assert(b * p >= 0) by (nonlinear_arith)
                requires
                    b >= 0,
                    p >= 0,
            ;
        }
        lemma_nonnegative(f, 0, k);
    }
    lemma_contributions(spec, m, n);
    assert forall|i: int|
        #![trigger (t.main)(i, 12)]
        0 <= i < n implies (t.main)(i, 12) == (if i < k {
        1int
    } else {
        0
    }) by {}
    assert forall|i: int|
        #![trigger (t.main)(i, 14)]
        0 <= i < n implies (t.main)(i, 14) == complement_bit(spec, m, i) && 0 <= complement_bit(
        spec,
        m,
        i,
    ) <= 1 by {}
    assert(air::bits(t, 12));
    assert(air::bits(t, 14));
    assert forall|row: int|
        #![trigger (t.main)(row, 14)]
        0 <= row < n implies sums::cong((t.main)(row, 14) * (1 - (t.main)(row, 12)), 0) by {
        let d = (t.main)(row, 14);
        if row < k {
            assert(d * (1 - 1) == 0);
        } else {
            assert(d == 0);
            assert(0 * (1 - (t.main)(row, 12)) == 0);
        }
    }
    assert forall|row: int| 0 <= row < n implies sums::cong(
        #[trigger] weighted_entry(t, row),
        contribution(spec, m, row),
    ) by {
        lemma_entry(spec, t, m, row);
    }
    assert forall|row: int|
        #![trigger step_holds(t, row)]
        0 <= row < n - 1 implies step_holds(t, row) by {
        lemma_range_step(spec, t, m, row);
    }
    let last = n - 1;
    assert(remaining(spec, m, n) == 0);
    lemma_remaining_step(spec, m, last);
    assert((t.main)(last, 15) == remaining(spec, m, last) % field::q());
    sums::lemma_cong_mod(remaining(spec, m, last));
    assert(sums::cong(weighted_entry(t, last), contribution(spec, m, last)));
    sums::lemma_cong_trans(
        (t.main)(last, 15),
        contribution(spec, m, last),
        weighted_entry(t, last),
    );
    assert((t.main)(last, 12) == range_entry(spec, m, last, 12) % field::q());
    assert((t.main)(last, 16) == range_entry(spec, m, last, 16) % field::q());
    assert((t.main)(0, 15) == range_entry(spec, m, 0, 15) % field::q());
    assert(remaining(spec, m, 0) == spec.bound - 1);
    assert((t.main)(0, 13) == range_entry(spec, m, 0, 13) % field::q());
    assert((t.main)(0, 16) == range_entry(spec, m, 0, 16) % field::q());
    assert((t.main)(0, 12) == 1);
}

proof fn lemma_remaining_step(spec: RangeSpec, m: Seq<int>, i: int)
    requires
        0 <= i,
    ensures
        remaining(spec, m, i) == contribution(spec, m, i) + remaining(spec, m, i + 1),
{
}

/// The weighted entry of a row is its contribution.
proof fn lemma_entry(spec: RangeSpec, t: BaseTables, m: Seq<int>, row: int)
    requires
        0 <= row < t.height,
        in_range(spec, m, t.height),
        (t.main)(row, 9) == m[row] % field::q(),
        (t.main)(row, 13) == range_entry(spec, m, row, 13) % field::q(),
        (t.main)(row, 14) == range_entry(spec, m, row, 14) % field::q(),
    ensures
        sums::cong(weighted_entry(t, row), contribution(spec, m, row)),
{
    let x = (t.main)(row, 9);
    let y = (t.main)(row, 14);
    let w = (t.main)(row, 13);
    let b = complement_bit(spec, m, row);
    sums::lemma_cong_mod(m[row]);
    sums::lemma_cong_mod(b);
    assert(sums::cong(x + y, m[row] + b));
    let p = range_entry(spec, m, row, 13);
    sums::lemma_cong_mod(p);
    sums::lemma_cong_mul(x + y, m[row] + b, w, p);
    if row >= spec.value_bits {
        assert((m[row] + b) * 0 == 0);
    }
}

/// The weight doubles while active and is cleared afterwards.
proof fn lemma_weight_step(p: int, p2: int, g: int)
    requires
        (g == 1 && p2 == 2 * p) || (g == 0 && p2 == 0),
    ensures
        sums::cong(p2 % field::q(), 2 * (p % field::q()) * g),
{
    let w = p % field::q();
    sums::lemma_cong_mod(p);
    sums::lemma_cong_mod(p2);
    if g == 1 {
        assert(2 * w * 1 == 2 * w);
        sums::lemma_cong_mul(2, 2, w, p);
        sums::lemma_cong_trans(p2 % field::q(), p2, 2 * w);
    } else {
        assert(2 * w * 0 == 0);
    }
}

/// A suffix sum takes one more entry.
proof fn lemma_suffix_step(r: int, r2: int, e: int, x: int)
    requires
        r == e + r2,
        sums::cong(x, e),
    ensures
        sums::cong(r % field::q(), x + r2 % field::q()),
{
    sums::lemma_cong_mod(r2);
    sums::lemma_cong_mod(r);
    let k = sums::lemma_cong_witness(x, e);
    let l = sums::lemma_cong_witness(r2 % field::q(), r2);
    sums::lemma_cong_from_witness(x + r2 % field::q(), r, k + l);
    sums::lemma_cong_trans(x + r2 % field::q(), r, r % field::q());
}

proof fn lemma_range_step(spec: RangeSpec, t: BaseTables, m: Seq<int>, row: int)
    requires
        0 <= row < t.height - 1,
        in_range(spec, m, t.height),
        forall|i: int, col: int|
            #![trigger (t.main)(i, col)]
            0 <= i < t.height && 12 <= col < 17 ==> (t.main)(i, col) == range_entry(
                spec,
                m,
                i,
                col,
            ) % field::q(),
        (t.main)(row, 9) == m[row] % field::q(),
    ensures
        step_holds(t, row),
{
    let k = spec.value_bits as int;
    let f = (t.main)(row, 12);
    let g = (t.main)(row + 1, 12);
    assert(f == range_entry(spec, m, row, 12));
    assert(g == range_entry(spec, m, row + 1, 12));
    assert(g * (1 - f) == 0) by {
        if row + 1 < k {
            assert(g * 0 == 0);
        } else {
            assert(0 * (1 - f) == 0);
        }
    }
    let p = range_entry(spec, m, row, 13);
    let p2 = range_entry(spec, m, row + 1, 13);
    assert((t.main)(row, 13) == p % field::q());
    assert((t.main)(row + 1, 13) == p2 % field::q());
    dft::lemma_pow2_step(row as nat);
    lemma_weight_step(p, p2, g);
    lemma_entry(spec, t, m, row);
    lemma_remaining_step(spec, m, row);
    let r = remaining(spec, m, row);
    let r2 = remaining(spec, m, row + 1);
    assert((t.main)(row, 15) == r % field::q());
    assert((t.main)(row + 1, 15) == r2 % field::q());
    lemma_suffix_step(r, r2, contribution(spec, m, row), weighted_entry(t, row));
    let c = range_entry(spec, m, row, 16);
    let c2 = range_entry(spec, m, row + 1, 16);
    assert((t.main)(row, 16) == c % field::q());
    assert((t.main)(row + 1, 16) == c2 % field::q());
    lemma_suffix_step(c, c2, f, f);
}

} // verus!
