use crate::direction::in_grid;
use crate::sokoannotatedboard::AnnotatedField;
use vstd::prelude::*;

verus! {

/// The number of squares among the first `n` of a row that `flag` does not
/// hold of.
pub open spec fn row_unset(row: Seq<AnnotatedField>, flag: spec_fn(AnnotatedField) -> bool, n: int) -> int
    decreases n,
{
    if n <= 0 {
        0
    } else {
        row_unset(row, flag, n - 1) + if flag(row[n - 1]) {
            0int
        } else {
            1int
        }
    }
}

/// The number of squares in the first `n` rows that `flag` does not hold of.
pub open spec fn unset(fs: Seq<Vec<AnnotatedField>>, flag: spec_fn(AnnotatedField) -> bool, n: int) -> int
    decreases n,
{
    if n <= 0 {
        0
    } else {
        unset(fs, flag, n - 1) + row_unset(fs[n - 1]@, flag, fs[n - 1].len() as int)
    }
}

/// Where a flag is only ever set, fewer squares are left without it; one
/// fewer at least where it was set on square `k`.
pub proof fn lemma_row_unset(
    a: Seq<AnnotatedField>,
    b: Seq<AnnotatedField>,
    flag: spec_fn(AnnotatedField) -> bool,
    n: int,
    k: int,
)
    requires
        0 <= n <= a.len() == b.len(),
        forall|i: int| 0 <= i < n && flag(#[trigger] a[i]) ==> flag(b[i]),
    ensures
        0 <= row_unset(b, flag, n) <= row_unset(a, flag, n),
        0 <= k < n && !flag(a[k]) && flag(b[k]) ==> row_unset(b, flag, n) < row_unset(a, flag, n),
    decreases n,
{
    if n > 0 {
        lemma_row_unset(a, b, flag, n - 1, k);
        assert(flag(a[n - 1]) ==> flag(b[n - 1]));
    }
}

/// Where a flag is only ever set, fewer squares are left without it; one
/// fewer at least where it was set on square `(kr, kc)`.
pub proof fn lemma_unset(
    a: Seq<Vec<AnnotatedField>>,
    b: Seq<Vec<AnnotatedField>>,
    flag: spec_fn(AnnotatedField) -> bool,
    n: int,
    kr: int,
    kc: int,
)
    requires
        0 <= n <= a.len() == b.len(),
        forall|r: int| 0 <= r < n ==> (#[trigger] a[r]).len() == b[r].len(),
        forall|r: int, c: int| 0 <= r < n && in_grid(a, r, c) && flag(#[trigger] a[r][c]) ==> flag(b[r][c]),
    ensures
        0 <= unset(b, flag, n) <= unset(a, flag, n),
        0 <= kr < n && in_grid(a, kr, kc) && !flag(a[kr][kc]) && flag(b[kr][kc]) ==> unset(b, flag, n)
            < unset(a, flag, n),
    decreases n,
{
    if n > 0 {
        lemma_unset(a, b, flag, n - 1, kr, kc);
        let r = n - 1;
        assert forall|i: int| 0 <= i < a[r].len() && flag(#[trigger] a[r]@[i]) implies flag(
            b[r]@[i],
        ) by {
            assert(in_grid(a, r, i));
            assert(flag(a[r][i]));
        }
        lemma_row_unset(a[r]@, b[r]@, flag, a[r].len() as int, kc);
    }
}

/// "The square is marked reachable" as a function of the square.
pub open spec fn reach_flag() -> spec_fn(AnnotatedField) -> bool {
    |f: AnnotatedField| f.reachable
}

/// "The square is marked productive" as a function of the square.
pub open spec fn prod_flag() -> spec_fn(AnnotatedField) -> bool {
    |f: AnnotatedField| f.productive
}

} // verus!
