//! Consumable budgets: per-turn resources, per-encounter charges, and the
//! ledger that tracks how much of each resource a creature still has.

use vstd::prelude::*;

verus! {

/// A per-turn or per-encounter budget token an action may require.
#[derive(Clone, Copy, Debug, PartialEq, Eq, Structural, Hash)]
pub enum Resource {
    Action,
    BonusAction,
    SneakAttack,
    SpellAction,
    Ki,
    /// A remaining spell slot of the given level.
    Spell(i32),
}

/// The per-encounter use limit of an action, distinct from the per-turn
/// resource ledger.
#[derive(Clone, Copy, Debug, PartialEq, Eq, Structural)]
pub enum Charge {
    Infinite,
    Limited(i32),
}

impl Charge {
    /// A limited charge never holds a negative remaining count.
    pub open spec fn wf(&self) -> bool {
        match *self {
            Charge::Infinite => true,
            Charge::Limited(q) => q >= 0,
        }
    }

    /// Whether the action may still be used at all this encounter.
    pub open spec fn spec_has_charges(&self) -> bool {
        match *self {
            Charge::Infinite => true,
            Charge::Limited(q) => q > 0,
        }
    }

    /// The charge after one use: `Limited` loses one, `Infinite` is kept.
    pub open spec fn spec_use(&self) -> Charge {
        match *self {
            Charge::Infinite => Charge::Infinite,
            Charge::Limited(q) => Charge::Limited((q - 1) as i32),
        }
    }
}

/// The charge left after `n` uses.
pub open spec fn spec_use_n(c: Charge, n: nat) -> Charge
    decreases n,
{
    if n == 0 {
        c
    } else {
        spec_use_n(c, (n - 1) as nat).spec_use()
    }
}

/// Charge exhaustion: an action limited to `n` uses still has charges
/// after any smaller number of uses, and is permanently out of charges
/// after exactly `n`, whatever resources its owner still holds.
pub proof fn lemma_charge_exhaustion(n: nat)
    requires
        n <= i32::MAX,
    ensures
        forall|m: nat| m < n ==> (#[trigger] spec_use_n(Charge::Limited(n as i32), m))
            .spec_has_charges(),
        spec_use_n(Charge::Limited(n as i32), n) == Charge::Limited(0i32),
        !spec_use_n(Charge::Limited(n as i32), n).spec_has_charges(),
{
    lemma_charge_countdown(n as i32, n);
}

/// Counting down: after `m <= q` uses, `Limited(q)` holds `q - m` charges.
pub proof fn lemma_charge_countdown(q: i32, n: nat)
    requires
        0 <= q,
        n <= q,
    ensures
        forall|m: nat| m <= n ==> spec_use_n(Charge::Limited(q), m) == Charge::Limited(
            (q - m) as i32,
        ),
    decreases n,
{
    if n == 0 {
        assert(spec_use_n(Charge::Limited(q), 0) == Charge::Limited(q));
    } else {
        lemma_charge_countdown(q, (n - 1) as nat);
        assert forall|m: nat| m <= n implies spec_use_n(Charge::Limited(q), m) == Charge::Limited(
            (q - m) as i32,
        ) by {
            if m == n {
                assert(spec_use_n(Charge::Limited(q), m) == spec_use_n(
                    Charge::Limited(q),
                    (m - 1) as nat,
                ).spec_use());
            }
        }
    }
}

/// A creature's resource ledger: each entry pairs a resource with the
/// quantity remaining.
pub type Ledger = Vec<(Resource, i32)>;

/// No resource appears twice in the ledger.
pub open spec fn ledger_keys_distinct(s: Seq<(Resource, i32)>) -> bool {
    forall|i: int, j: int| 0 <= i < j < s.len() ==> (#[trigger] s[i]).0 != (#[trigger] s[j]).0
}

/// Every remaining quantity is non-negative.
pub open spec fn ledger_nonneg(s: Seq<(Resource, i32)>) -> bool {
    forall|i: int| 0 <= i < s.len() ==> (#[trigger] s[i]).1 >= 0
}

/// The ledger invariant.
pub open spec fn ledger_wf(s: Seq<(Resource, i32)>) -> bool {
    ledger_keys_distinct(s) && ledger_nonneg(s)
}

/// Whether the ledger holds `r` with a positive quantity.
pub open spec fn ledger_has_positive(s: Seq<(Resource, i32)>, r: Resource) -> bool {
    exists|i: int| 0 <= i < s.len() && (#[trigger] s[i]).0 == r && s[i].1 > 0
}

/// How often `r` occurs in a resource list.
pub open spec fn count_of(rs: Seq<Resource>, r: Resource) -> int
    decreases rs.len(),
{
    if rs.len() == 0 {
        0
    } else {
        count_of(rs.drop_last(), r) + if rs.last() == r {
            1int
        } else {
            0int
        }
    }
}

/// A resource list with no duplicates.
pub open spec fn resources_distinct(rs: Seq<Resource>) -> bool {
    forall|i: int, j: int| 0 <= i < j < rs.len() ==> rs[i] != rs[j]
}

/// The total quantity the ledger holds, the measure that shrinks every
/// time an action is taken.
pub open spec fn ledger_sum(s: Seq<(Resource, i32)>) -> int
    decreases s.len(),
{
    if s.len() == 0 {
        0
    } else {
        ledger_sum(s.drop_last()) + s.last().1
    }
}

/// Occurrence counts never go negative, and sit below the list length.
pub proof fn lemma_count_of_bounds(rs: Seq<Resource>, r: Resource)
    ensures
        0 <= count_of(rs, r) <= rs.len(),
    decreases rs.len(),
{
    if rs.len() > 0 {
        lemma_count_of_bounds(rs.drop_last(), r);
    }
}

/// Extending a list by one element raises exactly that element's count.
pub proof fn lemma_count_of_push(rs: Seq<Resource>, x: Resource, r: Resource)
    ensures
        count_of(rs.push(x), r) == count_of(rs, r) + if x == r {
            1int
        } else {
            0int
        },
{
    assert(rs.push(x).drop_last() =~= rs);
    assert(rs.push(x).last() == x);
}

/// A positive count means the resource is in the list.
pub proof fn lemma_count_of_member(rs: Seq<Resource>, r: Resource)
    requires
        count_of(rs, r) > 0,
    ensures
        exists|k: int| 0 <= k < rs.len() && rs[k] == r,
    decreases rs.len(),
{
    if rs.last() != r {
        lemma_count_of_member(rs.drop_last(), r);
        let k = choose|k: int| 0 <= k < rs.drop_last().len() && rs.drop_last()[k] == r;
        assert(rs[k] == r);
    } else {
        assert(rs[rs.len() - 1] == r);
    }
}

/// In a duplicate-free list every count is at most one.
pub proof fn lemma_count_of_distinct(rs: Seq<Resource>, r: Resource)
    requires
        resources_distinct(rs),
    ensures
        count_of(rs, r) <= 1,
    decreases rs.len(),
{
    if rs.len() > 0 {
        assert(resources_distinct(rs.drop_last()));
        lemma_count_of_distinct(rs.drop_last(), r);
        if rs.last() == r {
            if count_of(rs.drop_last(), r) > 0 {
                lemma_count_of_member(rs.drop_last(), r);
                let k = choose|k: int|
                    0 <= k < rs.drop_last().len() && rs.drop_last()[k] == r;
                assert(rs[k] == rs[rs.len() - 1]);
                assert(false);
            }
        }
    }
}

/// Find the entry that holds `r`, if any.
pub fn ledger_find(led: &Ledger, r: Resource) -> (idx: Option<usize>)
    ensures
        match idx {
            Some(i) => i < led@.len() && led@[i as int].0 == r,
            None => forall|i: int| 0 <= i < led@.len() ==> (#[trigger] led@[i]).0 != r,
        },
{
    let mut i: usize = 0;
    while i < led.len()
        invariant
            i <= led@.len(),
            forall|j: int| 0 <= j < i ==> (#[trigger] led@[j]).0 != r,
        decreases led@.len() - i,
    {
        if led[i].0 == r {
            return Some(i);
        }
        i = i + 1;
    }
    None
}

} // verus!

verus! {

/// The resources that refill at the start of every turn; all others are
/// per-encounter budgets that are only ever consumed.
pub open spec fn is_turn_resource(r: Resource) -> bool {
    match r {
        Resource::Action => true,
        Resource::BonusAction => true,
        Resource::SneakAttack => true,
        Resource::SpellAction => true,
        Resource::Ki => false,
        Resource::Spell(_) => false,
    }
}

/// Pointwise-smaller ledgers have a smaller total.
pub proof fn lemma_ledger_sum_le(a: Seq<(Resource, i32)>, b: Seq<(Resource, i32)>)
    requires
        a.len() == b.len(),
        forall|i: int| 0 <= i < a.len() ==> (#[trigger] a[i]).1 <= (#[trigger] b[i]).1,
    ensures
        ledger_sum(a) <= ledger_sum(b),
    decreases a.len(),
{
    if a.len() > 0 {
        assert(a.last() == a[a.len() - 1]);
        assert(b.last() == b[b.len() - 1]);
        assert(forall|i: int| 0 <= i < a.drop_last().len() ==> (#[trigger] a.drop_last()[i]).1
            <= (#[trigger] b.drop_last()[i]).1);
        lemma_ledger_sum_le(a.drop_last(), b.drop_last());
    }
}

/// A ledger that is pointwise no larger and strictly smaller somewhere has
/// a strictly smaller total.
pub proof fn lemma_ledger_sum_lt(a: Seq<(Resource, i32)>, b: Seq<(Resource, i32)>, w: int)
    requires
        a.len() == b.len(),
        forall|i: int| 0 <= i < a.len() ==> (#[trigger] a[i]).1 <= (#[trigger] b[i]).1,
        0 <= w < a.len(),
        a[w].1 < b[w].1,
    ensures
        ledger_sum(a) < ledger_sum(b),
    decreases a.len(),
{
    assert(a.last() == a[a.len() - 1]);
    assert(b.last() == b[b.len() - 1]);
    assert(forall|i: int| 0 <= i < a.drop_last().len() ==> (#[trigger] a.drop_last()[i]).1
        <= (#[trigger] b.drop_last()[i]).1);
    if w == a.len() - 1 {
        lemma_ledger_sum_le(a.drop_last(), b.drop_last());
    } else {
        lemma_ledger_sum_lt(a.drop_last(), b.drop_last(), w);
    }
}

} // verus!

verus! {

/// An element of the list is counted at least once.
pub proof fn lemma_count_of_present(rs: Seq<Resource>, k: int)
    requires
        0 <= k < rs.len(),
    ensures
        count_of(rs, rs[k]) >= 1,
    decreases rs.len(),
{
    lemma_count_of_bounds(rs.drop_last(), rs[k]);
    if k == rs.len() - 1 {
        assert(rs.last() == rs[k]);
    } else {
        assert(rs.drop_last()[k] == rs[k]);
        lemma_count_of_present(rs.drop_last(), k);
    }
}

} // verus!

verus! {

/// A ledger of non-negative quantities has a non-negative total.
pub proof fn lemma_ledger_sum_nonneg(s: Seq<(Resource, i32)>)
    requires
        ledger_nonneg(s),
    ensures
        ledger_sum(s) >= 0,
    decreases s.len(),
{
    if s.len() > 0 {
        assert(forall|i: int| 0 <= i < s.drop_last().len() ==> (#[trigger] s.drop_last()[i]).1
            >= 0);
        lemma_ledger_sum_nonneg(s.drop_last());
        assert(s.last() == s[s.len() - 1]);
    }
}

} // verus!

verus! {

/// Resource monotonicity, the consumption half: spending an action whose
/// distinct declared resources are all available never drives a ledger
/// entry negative — each entry ends at its old quantity minus that
/// resource's occurrence count in the declaration. (The refill half is
/// the contract of a creature's turn start, which resets each per-turn
/// entry to exactly one.)
pub proof fn lemma_resource_monotonicity(led: Seq<(Resource, i32)>, decl: Seq<Resource>)
    requires
        ledger_wf(led),
        resources_distinct(decl),
        forall|k: int| 0 <= k < decl.len() ==> ledger_has_positive(led, #[trigger] decl[k]),
    ensures
        forall|i: int| 0 <= i < led.len() ==> (#[trigger] led[i]).1 - count_of(decl, led[i].0)
            >= 0,
{
    assert forall|i: int| 0 <= i < led.len() implies (#[trigger] led[i]).1 - count_of(
        decl,
        led[i].0,
    ) >= 0 by {
        lemma_count_of_distinct(decl, led[i].0);
        lemma_count_of_bounds(decl, led[i].0);
        if count_of(decl, led[i].0) > 0 {
            lemma_count_of_member(decl, led[i].0);
            let kk = choose|kk: int| 0 <= kk < decl.len() && decl[kk] == led[i].0;
            assert(ledger_has_positive(led, decl[kk]));
            let w = choose|j: int|
                0 <= j < led.len() && (#[trigger] led[j]).0 == decl[kk] && led[j].1 > 0;
            if w < i {
                assert(led[w].0 != led[i].0);
            } else if i < w {
                assert(led[i].0 != led[w].0);
            }
        }
    }
}

} // verus!
