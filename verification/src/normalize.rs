//! Score normalization.
//!
//! Dividing every score by the map's maximum rescales a metric map into
//! `[0, 1]`.  A map with no entries or an all-zero map has no meaningful
//! rescaling: that is reported as an explicit error rather than producing
//! indeterminate values.  The quotients are exact rationals; in the rare
//! case that a quotient of two 64-bit rationals has no 64-bit
//! representation, that too is an explicit error, never a rounded value.

use crate::maps::{keys_of, lemma_seq_get_some, MetricMap};
use crate::score::{lemma_mul_u64_fits, Score};
use vstd::prelude::*;

verus! {

/// Why a map could not be normalized.
#[derive(Clone, Copy, Debug, PartialEq, Eq, Structural)]
pub enum NormalizeError {
    /// The map is empty or every score is zero, so the quotients are
    /// undefined.
    ZeroMax,
    /// Some exact quotient has no 64-bit representation.
    Unrepresentable,
}

/// `mx` is an entry's score and no entry scores higher.
pub open spec fn is_max_of(rows: Seq<(usize, Score)>, mx: Score) -> bool {
    &&& exists|i: int| 0 <= i < rows.len() && (#[trigger] rows[i]).1 == mx
    &&& forall|i: int| 0 <= i < rows.len() ==> (#[trigger] rows[i]).1.spec_le(mx)
}

/// `outp` is `inp` rescaled by the maximum `mx`: keys are kept in place,
/// every output score is the exact quotient of the input score by `mx`,
/// lies in `[0, 1]`, and an entry holding the maximum value becomes
/// exactly one.
pub open spec fn normalized_rows(
    inp: Seq<(usize, Score)>,
    mx: Score,
    outp: Seq<(usize, Score)>,
) -> bool {
    &&& outp.len() == inp.len()
    &&& forall|i: int|
        0 <= i < inp.len() ==> {
            let a = (#[trigger] inp[i]).1;
            let o = outp[i].1;
            &&& outp[i].0 == inp[i].0
            &&& o.num * (a.den * mx.num) == (a.num * mx.den) * o.den
            &&& o.num <= o.den
            &&& (a.same_value(mx) ==> o == (Score { num: 1, den: 1 }))
        }
}

/// Law: the entry holding the maximum score normalizes to exactly one.
pub proof fn lemma_normalization_max_is_one(
    inp: Seq<(usize, Score)>,
    mx: Score,
    outp: Seq<(usize, Score)>,
    i: int,
)
    requires
        normalized_rows(inp, mx, outp),
        0 <= i < inp.len(),
        inp[i].1.same_value(mx),
    ensures
        outp[i].1 == (Score { num: 1, den: 1 }),
{
}

/// Divides every score by the map's maximum score.  Fails with `ZeroMax`
/// exactly when the map is empty or holds only zero scores, and with
/// `Unrepresentable` only when some exact quotient does not fit.
pub fn normalize_centrality_values(m: &MetricMap) -> (r: Result<MetricMap, NormalizeError>)
    requires
        m.wf(),
    ensures
        r == Result::<MetricMap, NormalizeError>::Err(NormalizeError::ZeroMax) <==> (
        m.rows().len() == 0 || forall|i: int|
            0 <= i < m.rows().len() ==> (#[trigger] m.rows()[i]).1.is_zero()),
        r is Ok ==> exists|mx: Score|
            {
                &&& #[trigger] is_max_of(m.rows(), mx)
                &&& r->Ok_0.wf()
                &&& keys_of(r->Ok_0.rows()) == keys_of(m.rows())
                &&& normalized_rows(m.rows(), mx, r->Ok_0.rows())
            },
        r == Result::<MetricMap, NormalizeError>::Err(NormalizeError::Unrepresentable)
            ==> exists|mx: Score, i: int|
            #![trigger is_max_of(m.rows(), mx), m.rows()[i]]
            {
                &&& is_max_of(m.rows(), mx)
                &&& 0 <= i < m.rows().len()
                &&& !m.rows()[i].1.same_value(mx)
                &&& (m.rows()[i].1.num * mx.den > u64::MAX || m.rows()[i].1.den * mx.num
                    > u64::MAX)
            },
{
    let ghost rows = m.rows();
    let entries = m.entries();
    let n = entries.len();
    if n == 0 {
        return Err(NormalizeError::ZeroMax);
    }

    // Find the maximum score.
    let mut mx = entries[0].1;
    let ghost mut mxi: int = 0;
    let mut i: usize = 1;
    while i < n
        invariant
            m.wf(),
            rows == m.rows(),
            entries@ == rows,
            n == rows.len(),
            1 <= i <= n,
            0 <= mxi < i,
            rows[mxi].1 == mx,
            forall|j: int| 0 <= j < i ==> (#[trigger] rows[j]).1.spec_le(mx),
        decreases n - i,
    {
        let ghost mx0 = mx;
        if mx.lt(&entries[i].1) {
            mx = entries[i].1;
            proof {
                mxi = i as int;
            }
        } else {
            proof {
                assert(rows[i as int].1.spec_le(mx));
            }
        }
        proof {
            assert(mx0 == mx || mx0.spec_lt(mx));
            assert forall|j: int| 0 <= j < i + 1 implies (#[trigger] rows[j]).1.spec_le(
                mx,
            ) by {
                if j < i {
                    lemma_le_preserved(rows[j].1, mx0, mx);
                }
            }
        }
        i = i + 1;
    }
    proof {
        assert(is_max_of(rows, mx));
        assert(mx.wf());
    }

    if mx.num == 0 {
        proof {
            assert forall|j: int| 0 <= j < n implies (#[trigger] rows[j]).1.is_zero() by {
                let a = rows[j].1;
                assert(a.num * mx.den <= mx.num * a.den);
                assert(a.num == 0) by (nonlinear_arith)
                    requires
                        a.num * mx.den <= mx.num * a.den,
                        mx.num == 0,
                        mx.den >= 1,
                        a.num >= 0,
                ;
            }
        }
        return Err(NormalizeError::ZeroMax);
    }

    let mut out = MetricMap::new();
    let mut i2: usize = 0;
    while i2 < n
        invariant
            m.wf(),
            rows == m.rows(),
            entries@ == rows,
            n == rows.len(),
            n >= 1,
            mx.wf(),
            mx.num >= 1,
            is_max_of(rows, mx),
            0 <= i2 <= n,
            out.wf(),
            out.rows().len() == i2,
            forall|x: int| 0 <= x < i2 ==> (#[trigger] out.rows()[x]).0 == rows[x].0,
            normalized_rows(rows.take(i2 as int), mx, out.rows()),
        decreases n - i2,
    {
        let a = entries[i2].1;
        proof {
            lemma_mul_u64_fits(a.num, mx.den);
            lemma_mul_u64_fits(a.den, mx.num);
            assert(rows[i2 as int].1.spec_le(mx));
        }
        let p: u128 = (a.num as u128) * (mx.den as u128);
        let q: u128 = (a.den as u128) * (mx.num as u128);
        let sc: Score;
        if p == q {
            sc = Score::one();
        } else if p <= (u64::MAX as u128) && q <= (u64::MAX as u128) {
            proof {
                assert(q >= 1) by (nonlinear_arith)
                    requires
                        q == a.den as int * mx.num as int,
                        a.den >= 1,
                        mx.num >= 1,
                ;
            }
            sc = Score::ratio(p as u64, q as u64);
        } else {
            proof {
                assert(a == rows[i2 as int].1);
                assert(p as int == a.num * mx.den);
                assert(q as int == a.den * mx.num);
                assert(a.den * mx.num == mx.num * a.den) by (nonlinear_arith);
                assert(!rows[i2 as int].1.same_value(mx));
                assert(a.num * mx.den > u64::MAX || a.den * mx.num > u64::MAX);
            }
            return Err(NormalizeError::Unrepresentable);
        }
        proof {
            let key = rows[i2 as int].0;
            lemma_seq_get_some(out.rows(), key);
            if keys_of(out.rows()).contains(key) {
                let x = choose|x: int|
                    0 <= x < keys_of(out.rows()).len() && keys_of(out.rows())[x] == key;
                assert(out.rows()[x].0 == rows[x].0);
                assert(keys_of(rows)[x] == keys_of(rows)[i2 as int]);
            }
        }
        out.insert(entries[i2].0, sc);
        proof {
            assert(rows.take(i2 as int + 1) =~= rows.take(i2 as int).push(rows[i2 as int]));
            assert forall|x: int| 0 <= x < i2 + 1 implies {
                let av = (#[trigger] rows.take(i2 as int + 1)[x]).1;
                let o = out.rows()[x].1;
                &&& out.rows()[x].0 == rows.take(i2 as int + 1)[x].0
                &&& o.num * (av.den * mx.num) == (av.num * mx.den) * o.den
                &&& o.num <= o.den
                &&& (av.same_value(mx) ==> o == (Score { num: 1, den: 1 }))
            } by {
                if x == i2 as int {
                    assert(out.rows()[x].1 == sc);
                    assert(rows.take(i2 as int + 1)[x].1 == a);
                    assert(a.num * mx.den <= mx.num * a.den);
                    if sc == (Score { num: 1, den: 1 }) {
                        assert(p == q);
                    } else {
                        assert(sc.num == p && sc.den == q);
                    }
                } else {
                    assert(rows.take(i2 as int + 1)[x] == rows.take(i2 as int)[x]);
                    assert(out.rows()[x] == out.rows().take(i2 as int)[x]);
                }
            }
        }
        i2 = i2 + 1;
    }
    proof {
        assert(rows.take(n as int) =~= rows);
        assert(keys_of(out.rows()) =~= keys_of(rows));
        assert(rows[mxi].1.num >= 1) by {
            assert(mx.num >= 1);
        }
    }
    Ok(out)
}

proof fn lemma_le_preserved(a: Score, b: Score, c: Score)
    requires
        a.spec_le(b) || a.spec_le(c),
        b == c || b.spec_lt(c),
    ensures
        a.spec_le(c),
{
    if a.spec_le(b) && b != c {
        assert(a.num * c.den <= c.num * a.den) by (nonlinear_arith)
            requires
                a.num * b.den <= b.num * a.den,
                b.num * c.den < c.num * b.den,
                a.den >= 0,
                b.den >= 0,
                c.den >= 0,
                a.num >= 0,
                b.num >= 0,
                c.num >= 0,
        ;
    }
}

} // verus!
