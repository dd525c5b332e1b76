//! Bounded delta arithmetic: a signed counter offset together with the bound
//! `max_value` that the resulting counter must stay inside. Deltas from
//! independent transactions commute, so they can be accumulated without
//! serializing the transactions that produced them.

use vstd::prelude::*;

verus! {

/// Direction and magnitude of a delta.
#[derive(Clone, Copy, PartialEq, Eq, Structural, Debug)]
pub enum DeltaUpdate {
    Plus(u128),
    Minus(u128),
}

/// A signed offset bound to keep the resulting counter inside
/// `[0, max_value]`.
#[derive(Clone, Copy, PartialEq, Eq, Structural, Debug)]
pub struct DeltaOp {
    pub update: DeltaUpdate,
    pub max_value: u128,
}

/// The signed integer a delta stands for.
pub open spec fn delta_int(d: DeltaOp) -> int {
    match d.update {
        DeltaUpdate::Plus(v) => v as int,
        DeltaUpdate::Minus(v) => -(v as int),
    }
}

/// A delta whose magnitude exceeds its own bound could never apply
/// successfully; well-formed deltas rule that shape out.
pub open spec fn delta_wf(d: DeltaOp) -> bool {
    match d.update {
        DeltaUpdate::Plus(v) => v <= d.max_value,
        DeltaUpdate::Minus(v) => v <= d.max_value,
    }
}

/// The canonical delta of signed magnitude `net` under bound `max_value`:
/// non-negative nets are `Plus`, negative nets `Minus`.
pub open spec fn delta_of_int(net: int, max_value: u128) -> DeltaOp {
    if net >= 0 {
        DeltaOp { update: DeltaUpdate::Plus(net as u128), max_value }
    } else {
        DeltaOp { update: DeltaUpdate::Minus((-net) as u128), max_value }
    }
}

/// Composition of a later delta with an earlier one: defined exactly when the
/// combined signed offset still has magnitude at most the bound.
pub open spec fn spec_merge(later: DeltaOp, earlier: DeltaOp) -> Option<DeltaOp> {
    let net = delta_int(later) + delta_int(earlier);
    if -(later.max_value as int) <= net <= later.max_value as int {
        Some(delta_of_int(net, later.max_value))
    } else {
        None
    }
}

/// Application of a delta to a concrete base: defined exactly when
/// `base + delta` lies in `[0, max_value]`.
pub open spec fn spec_apply(d: DeltaOp, base: u128) -> Option<u128> {
    let v = base + delta_int(d);
    if 0 <= v <= d.max_value as int {
        Some(v as u128)
    } else {
        None
    }
}

/// Failure of a delta operation: the combined or applied value would leave
/// `[0, max_value]`.
#[derive(Clone, Copy, PartialEq, Eq, Structural, Debug)]
pub struct DeltaFailure {}

/// A delta adding `v` under bound `max_value`.
pub fn delta_add(v: u128, max_value: u128) -> (r: DeltaOp)
    requires
        v <= max_value,
    ensures
        r == (DeltaOp { update: DeltaUpdate::Plus(v), max_value }),
        delta_wf(r),
        delta_int(r) == v as int,
{
    DeltaOp { update: DeltaUpdate::Plus(v), max_value }
}

/// A delta subtracting `v` under bound `max_value`.
pub fn delta_sub(v: u128, max_value: u128) -> (r: DeltaOp)
    requires
        v <= max_value,
    ensures
        r == (DeltaOp { update: DeltaUpdate::Minus(v), max_value }),
        delta_wf(r),
        delta_int(r) == -(v as int),
{
    DeltaOp { update: DeltaUpdate::Minus(v), max_value }
}

impl DeltaOp {
    /// Whether this delta's magnitude stays within its own bound.
    pub fn check_wf(&self) -> (r: bool)
        ensures
            r == delta_wf(*self),
    {
        match self.update {
            DeltaUpdate::Plus(v) => v <= self.max_value,
            DeltaUpdate::Minus(v) => v <= self.max_value,
        }
    }

    /// Composes this delta (the later one) with an earlier delta over the
    /// same bound. Fails exactly when the combined offset's magnitude leaves
    /// the bound; it never faults.
    pub fn merge(self, earlier: DeltaOp) -> (r: Result<DeltaOp, DeltaFailure>)
        requires
            delta_wf(self),
            delta_wf(earlier),
            self.max_value == earlier.max_value,
        ensures
            match r {
                Ok(d) => spec_merge(self, earlier) == Some(d) && delta_wf(d) && d.max_value
                    == self.max_value,
                Err(_) => spec_merge(self, earlier) is None,
            },
    {
        let max_value = self.max_value;
        match (self.update, earlier.update) {
            (DeltaUpdate::Plus(l), DeltaUpdate::Plus(e)) => {
                // the bound check is phrased without the sum, which could
                // overflow before the comparison
                if l <= max_value - e {
                    Ok(DeltaOp { update: DeltaUpdate::Plus(l + e), max_value })
                } else {
                    Err(DeltaFailure {})
                }
            },
            (DeltaUpdate::Minus(l), DeltaUpdate::Minus(e)) => {
                if l <= max_value - e {
                    if l + e == 0 {
                        Ok(DeltaOp { update: DeltaUpdate::Plus(0), max_value })
                    } else {
                        Ok(DeltaOp { update: DeltaUpdate::Minus(l + e), max_value })
                    }
                } else {
                    Err(DeltaFailure {})
                }
            },
            (DeltaUpdate::Plus(l), DeltaUpdate::Minus(e)) => {
                if l >= e {
                    Ok(DeltaOp { update: DeltaUpdate::Plus(l - e), max_value })
                } else {
                    Ok(DeltaOp { update: DeltaUpdate::Minus(e - l), max_value })
                }
            },
            (DeltaUpdate::Minus(l), DeltaUpdate::Plus(e)) => {
                if e >= l {
                    Ok(DeltaOp { update: DeltaUpdate::Plus(e - l), max_value })
                } else {
                    Ok(DeltaOp { update: DeltaUpdate::Minus(l - e), max_value })
                }
            },
        }
    }

    /// Applies this delta to a concrete base value. Fails exactly when
    /// `base + delta` lies outside `[0, max_value]`; it never faults.
    pub fn apply(self, base: u128) -> (r: Result<u128, DeltaFailure>)
        ensures
            match r {
                Ok(v) => spec_apply(self, base) == Some(v),
                Err(_) => spec_apply(self, base) is None,
            },
            r is Err <==> !(0 <= base + delta_int(self) <= self.max_value as int),
    {
        match self.update {
            DeltaUpdate::Plus(v) => {
                match base.checked_add(v) {
                    Some(sum) => {
                        if sum <= self.max_value {
                            Ok(sum)
                        } else {
                            Err(DeltaFailure {})
                        }
                    },
                    None => Err(DeltaFailure {}),
                }
            },
            DeltaUpdate::Minus(v) => {
                match base.checked_sub(v) {
                    Some(diff) => {
                        if diff <= self.max_value {
                            Ok(diff)
                        } else {
                            Err(DeltaFailure {})
                        }
                    },
                    None => Err(DeltaFailure {}),
                }
            },
        }
    }
}

/// Merging two deltas is commutative: the composition does not depend on
/// which of the two was recorded later, neither in whether it is defined nor
/// in its value.
pub proof fn lemma_merge_commutative(a: DeltaOp, b: DeltaOp)
    requires
        a.max_value == b.max_value,
    ensures
        spec_merge(a, b) == spec_merge(b, a),
{
}

/// Merging is associative: whenever both intermediate compositions stay
/// representable, composing three deltas in either association gives the same
/// delta, and each side is defined exactly when the other is.
pub proof fn lemma_merge_associative(d1: DeltaOp, d2: DeltaOp, d3: DeltaOp)
    requires
        d1.max_value == d2.max_value,
        d2.max_value == d3.max_value,
        spec_merge(d1, d2) is Some,
        spec_merge(d2, d3) is Some,
    ensures
        spec_merge(spec_merge(d1, d2)->Some_0, d3) == spec_merge(d1, spec_merge(d2, d3)->Some_0),
{
}

/// Sum of the signed offsets of a delta sequence.
pub open spec fn ops_net(ds: Seq<DeltaOp>) -> int
    decreases ds.len(),
{
    if ds.len() == 0 {
        0
    } else {
        ops_net(ds.drop_last()) + delta_int(ds.last())
    }
}

/// Applying a delta sequence to a base value, in order: undefined as soon as
/// one step leaves `[0, max_value]`.
pub open spec fn apply_all(ds: Seq<DeltaOp>, base: u128) -> Option<u128>
    decreases ds.len(),
{
    if ds.len() == 0 {
        Some(base)
    } else {
        match apply_all(ds.drop_last(), base) {
            Some(v) => spec_apply(ds.last(), v),
            None => None,
        }
    }
}

/// A delta sequence that applies cleanly contributes exactly the sum of its
/// signed offsets.
pub proof fn lemma_apply_all_net(ds: Seq<DeltaOp>, base: u128)
    requires
        apply_all(ds, base) is Some,
    ensures
        apply_all(ds, base)->Some_0 == base + ops_net(ds),
    decreases ds.len(),
{
    if ds.len() > 0 {
        lemma_apply_all_net(ds.drop_last(), base);
    }
}

proof fn lemma_ops_net_remove(ds: Seq<DeltaOp>, i: int)
    requires
        0 <= i < ds.len(),
    ensures
        ops_net(ds) == ops_net(ds.remove(i)) + delta_int(ds[i]),
    decreases ds.len(),
{
    if i == ds.len() - 1 {
        assert(ds.remove(i) =~= ds.drop_last());
    } else {
        assert(ds.remove(i).drop_last() =~= ds.drop_last().remove(i));
        assert(ds.remove(i).last() == ds.last());
        lemma_ops_net_remove(ds.drop_last(), i);
    }
}

proof fn lemma_ops_net_multiset(ds1: Seq<DeltaOp>, ds2: Seq<DeltaOp>)
    requires
        ds1.to_multiset() == ds2.to_multiset(),
    ensures
        ops_net(ds1) == ops_net(ds2),
    decreases ds1.len(),
{
    ds1.to_multiset_ensures();
    ds2.to_multiset_ensures();
    if ds1.len() == 0 {
        assert(ds2.len() == 0);
    } else {
        let d = ds1.last();
        assert(ds1.contains(d));
        assert(ds1.to_multiset().count(d) > 0);
        assert(ds2.to_multiset().count(d) > 0);
        assert(ds2.contains(d));
        let j = choose|j: int| 0 <= j < ds2.len() && ds2[j] == d;
        assert(ds1.remove(ds1.len() - 1) =~= ds1.drop_last());
        assert(ds1.drop_last().to_multiset() =~= ds1.to_multiset().remove(d));
        assert(ds2.remove(j).to_multiset() =~= ds2.to_multiset().remove(d));
        lemma_ops_net_remove(ds2, j);
        lemma_ops_net_multiset(ds1.drop_last(), ds2.remove(j));
    }
}

/// The deltas' contribution to a resolved value is commutative: two
/// arrangements of the same deltas, each of which stays within bounds at
/// every prefix, apply a base value to the same final value.
pub proof fn lemma_delta_contribution_commutative(ds1: Seq<DeltaOp>, ds2: Seq<DeltaOp>, base: u128)
    requires
        ds1.to_multiset() == ds2.to_multiset(),
        apply_all(ds1, base) is Some,
        apply_all(ds2, base) is Some,
    ensures
        apply_all(ds1, base) == apply_all(ds2, base),
{
    lemma_apply_all_net(ds1, base);
    lemma_apply_all_net(ds2, base);
    lemma_ops_net_multiset(ds1, ds2);
}

/// Merged application agrees with successive application: if applying the
/// earlier delta to a base inside `[0, max_value]` succeeds and applying the
/// later delta to the intermediate result succeeds too, then the merge of the
/// two deltas is defined and applying it to the base gives the same final
/// value.
pub proof fn lemma_apply_merge(later: DeltaOp, earlier: DeltaOp, base: u128)
    requires
        later.max_value == earlier.max_value,
        base <= earlier.max_value,
        spec_apply(earlier, base) is Some,
        spec_apply(later, spec_apply(earlier, base)->Some_0) is Some,
    ensures
        spec_merge(later, earlier) is Some,
        spec_apply(spec_merge(later, earlier)->Some_0, base) == spec_apply(
            later,
            spec_apply(earlier, base)->Some_0,
        ),
{
}

} // verus!

