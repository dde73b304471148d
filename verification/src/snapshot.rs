//! The snapshot of one token: who holds how much of it at the target block.

use crate::address::{address_text, Address};
use crate::balance::{amounts_of, decimal_text, Balance};
use crate::pool::{underlying, underlying_amount, TokenPair};
use vstd::prelude::*;

verus! {

/// One holder and what the holder has.
#[derive(Clone, Debug, PartialEq, Eq)]
pub struct SnapshotEntry {
    pub holder: Address,
    pub amount: Balance,
}

impl View for SnapshotEntry {
    type V = (Address, nat);

    open spec fn view(&self) -> (Address, nat) {
        (self.holder, self.amount@)
    }
}

/// A token's holders with their amounts, and the holders whose amount is
/// undefined.
#[derive(Clone, Debug, PartialEq, Eq)]
pub struct Snapshot {
    pub entries: Vec<SnapshotEntry>,
    pub unavailable: Vec<Address>,
}

/// One line of a snapshot as it is stored: the holder in hexadecimal, the
/// amount in decimal.
#[derive(Clone, Debug, PartialEq, Eq)]
pub struct SnapshotLine {
    pub holder: String,
    pub amount: String,
}

/// How many holders have a balance beside them.
pub open spec fn paired(holders: Seq<Address>, amounts: Seq<nat>) -> nat {
    if holders.len() <= amounts.len() {
        holders.len()
    } else {
        amounts.len()
    }
}

/// Of the first `n` holders, in their order, those whose amount is not zero,
/// each with that amount.
pub open spec fn held(holders: Seq<Address>, amounts: Seq<nat>, n: nat) -> Seq<(Address, nat)>
    decreases n,
{
    if n == 0 {
        Seq::empty()
    } else {
        let before = held(holders, amounts, (n - 1) as nat);
        if amounts[n - 1] > 0 {
            before.push((holders[n - 1], amounts[n - 1]))
        } else {
            before
        }
    }
}

/// The entries of a pool token's snapshot: each amount held, turned into
/// what it is worth in the reserve.
pub open spec fn held_underlying(
    holders: Seq<Address>,
    amounts: Seq<nat>,
    n: nat,
    total_supply: nat,
    reserve: nat,
) -> Seq<(Address, nat)> {
    let direct = held(holders, amounts, n);
    Seq::new(
        direct.len(),
        |i: int| (direct[i].0, underlying_amount(direct[i].1, total_supply, reserve)),
    )
}

/// The holders among the first `n` whose amount is not zero.
pub open spec fn holding(holders: Seq<Address>, amounts: Seq<nat>, n: nat) -> Seq<Address> {
    let direct = held(holders, amounts, n);
    Seq::new(direct.len(), |i: int| direct[i].0)
}

impl Snapshot {
    /// The entries as pairs of holder and amount.
    pub open spec fn entries_view(&self) -> Seq<(Address, nat)> {
        Seq::new(self.entries@.len(), |i: int| self.entries@[i]@)
    }
}

/// The snapshot of a token: every holder whose balance is not zero, with the
/// balance. `balances[i]` is the balance of `holders[i]`; a holder without a
/// balance beside it is left out.
pub fn token_snapshot(holders: &Vec<Address>, balances: &Vec<Balance>) -> (r: Snapshot)
    ensures
        r.entries_view() == held(
            holders@,
            amounts_of(balances@),
            paired(holders@, amounts_of(balances@)),
        ),
        r.unavailable@.len() == 0,
{
    let n: usize = if holders.len() <= balances.len() {
        holders.len()
    } else {
        balances.len()
    };
    let ghost amounts = amounts_of(balances@);
    let mut entries: Vec<SnapshotEntry> = Vec::new();
    let mut i: usize = 0;
    while i < n
        invariant
            i <= n,
            n <= holders.len(),
            n <= balances.len(),
            amounts == amounts_of(balances@),
            Seq::new(entries@.len(), |k: int| entries@[k]@) == held(holders@, amounts, i as nat),
        decreases n - i,
    {
        if !balances[i].is_zero() {
            let ghost before = entries@;
            entries.push(SnapshotEntry { holder: holders[i], amount: balances[i].clone() });
            assert(Seq::new(entries@.len(), |k: int| entries@[k]@) =~= Seq::new(
                before.len(),
                |k: int| before[k]@,
            ).push((holders@[i as int], amounts[i as int])));
        }
        i += 1;
    }
    Snapshot { entries, unavailable: Vec::new() }
}

/// The snapshot of a pool token: every holder whose balance is not zero,
/// with what the balance is worth in the pool's second reserve. When the pool
/// has no supply that worth is undefined, and those holders are listed as
/// unavailable instead.
pub fn pool_snapshot(
    holders: &Vec<Address>,
    balances: &Vec<Balance>,
    reserves: &TokenPair,
    total_supply: &Balance,
) -> (r: Snapshot)
    ensures
        total_supply@ > 0 ==> r.entries_view() == held_underlying(
            holders@,
            amounts_of(balances@),
            paired(holders@, amounts_of(balances@)),
            total_supply@,
            reserves.reserve1@,
        ) && r.unavailable@.len() == 0,
        total_supply@ == 0 ==> r.entries@.len() == 0 && r.unavailable@ == holding(
            holders@,
            amounts_of(balances@),
            paired(holders@, amounts_of(balances@)),
        ),
{
    let n: usize = if holders.len() <= balances.len() {
        holders.len()
    } else {
        balances.len()
    };
    let ghost amounts = amounts_of(balances@);
    let ghost supply = total_supply@;
    let ghost reserve = reserves.reserve1@;
    let mut entries: Vec<SnapshotEntry> = Vec::new();
    let mut unavailable: Vec<Address> = Vec::new();
    let mut i: usize = 0;
    while i < n
        invariant
            i <= n,
            n <= holders.len(),
            n <= balances.len(),
            amounts == amounts_of(balances@),
            supply == total_supply@,
            reserve == reserves.reserve1@,
            supply > 0 ==> Seq::new(entries@.len(), |k: int| entries@[k]@) == held_underlying(
                holders@,
                amounts,
                i as nat,
                supply,
                reserve,
            ) && unavailable@.len() == 0,
            supply == 0 ==> entries@.len() == 0 && unavailable@ == holding(
                holders@,
                amounts,
                i as nat,
            ),
        decreases n - i,
    {
        if !balances[i].is_zero() {
            let ghost before = entries@;
            let ghost missing = unavailable@;
            match underlying(&balances[i], total_supply, &reserves.reserve1) {
                Ok(amount) => {
                    entries.push(SnapshotEntry { holder: holders[i], amount });
                    assert(Seq::new(entries@.len(), |k: int| entries@[k]@) =~= Seq::new(
                        before.len(),
                        |k: int| before[k]@,
                    ).push(
                        (holders@[i as int], underlying_amount(amounts[i as int], supply, reserve)),
                    ));
                    assert(held_underlying(holders@, amounts, (i + 1) as nat, supply, reserve)
                        =~= held_underlying(holders@, amounts, i as nat, supply, reserve).push(
                        (holders@[i as int], underlying_amount(amounts[i as int], supply, reserve)),
                    ));
                },
                Err(_) => {
                    unavailable.push(holders[i]);
                    assert(holding(holders@, amounts, (i + 1) as nat) =~= holding(
                        holders@,
                        amounts,
                        i as nat,
                    ).push(holders@[i as int]));
                },
            }
        } else {
            assert(held_underlying(holders@, amounts, (i + 1) as nat, supply, reserve)
                =~= held_underlying(holders@, amounts, i as nat, supply, reserve));
            assert(holding(holders@, amounts, (i + 1) as nat) =~= holding(
                holders@,
                amounts,
                i as nat,
            ));
        }
        i += 1;
    }
    Snapshot { entries, unavailable }
}

impl Snapshot {
    /// The entries as they are stored: each holder as `0x` and 40 lower-case
    /// digits, each amount in decimal digits.
    pub fn lines(&self) -> (r: Vec<SnapshotLine>)
        ensures
            r@.len() == self.entries@.len(),
            forall|i: int|
                0 <= i < r@.len() ==> (#[trigger] r@[i]).holder@ == address_text(
                    self.entries@[i].holder@,
                ) && r@[i].amount@ == decimal_text(self.entries@[i].amount@),
    {
        let mut out: Vec<SnapshotLine> = Vec::new();
        let mut i: usize = 0;
        while i < self.entries.len()
            invariant
                i <= self.entries@.len(),
                out@.len() == i,
                forall|k: int|
                    0 <= k < i ==> (#[trigger] out@[k]).holder@ == address_text(
                        self.entries@[k].holder@,
                    ) && out@[k].amount@ == decimal_text(self.entries@[k].amount@),
            decreases self.entries@.len() - i,
        {
            let entry = &self.entries[i];
            out.push(SnapshotLine { holder: entry.holder.to_hex(), amount: entry.amount.to_decimal() });
            i += 1;
        }
        out
    }
}

/// Who is in a snapshot: each entry stands for a holder whose amount is not
/// zero, every such holder has an entry, and where no holder is listed twice
/// a holder whose amount is zero has none.
pub proof fn lemma_held_membership(holders: Seq<Address>, amounts: Seq<nat>, n: nat)
    requires
        n <= holders.len(),
        n <= amounts.len(),
    ensures
        forall|j: int|
            0 <= j < held(holders, amounts, n).len() ==> exists|i: int|
                0 <= i < n && amounts[i] > 0 && #[trigger] held(holders, amounts, n)[j] == (
                    #[trigger] holders[i],
                    amounts[i],
                ),
        forall|i: int|
            0 <= i < n && amounts[i] > 0 ==> held(holders, amounts, n).contains(
                (#[trigger] holders[i], amounts[i]),
            ),
        holders.no_duplicates() ==> forall|i: int, j: int|
            0 <= i < n && amounts[i] == 0 && 0 <= j < held(holders, amounts, n).len() ==> (
            #[trigger] held(holders, amounts, n)[j]).0 != #[trigger] holders[i],
    decreases n,
{
    if n > 0 {
        let m = (n - 1) as nat;
        lemma_held_membership(holders, amounts, m);
        let before = held(holders, amounts, m);
        let now = held(holders, amounts, n);
        assert forall|j: int| 0 <= j < now.len() implies exists|i: int|
            0 <= i < n && amounts[i] > 0 && #[trigger] now[j] == (#[trigger] holders[i], amounts[i]) by {
            if j < before.len() {
                let i = choose|i: int|
                    0 <= i < m && amounts[i] > 0 && #[trigger] before[j] == (
                        #[trigger] holders[i],
                        amounts[i],
                    );
                assert(now[j] == (holders[i], amounts[i]));
            } else {
                assert(now[j] == (holders[m as int], amounts[m as int]));
            }
        }
        assert forall|i: int| 0 <= i < n && amounts[i] > 0 implies now.contains(
            (#[trigger] holders[i], amounts[i]),
        ) by {
            if i < m {
                let j = choose|j: int|
                    0 <= j < before.len() && before[j] == (holders[i], amounts[i]);
                assert(now[j] == (holders[i], amounts[i]));
            } else {
                assert(now[now.len() - 1] == (holders[i], amounts[i]));
            }
        }
        if holders.no_duplicates() {
            assert forall|i: int, j: int|
                0 <= i < n && amounts[i] == 0 && 0 <= j < now.len() implies (#[trigger] now[j]).0
                != #[trigger] holders[i] by {
                let k = choose|k: int|
                    0 <= k < n && amounts[k] > 0 && #[trigger] now[j] == (
                        #[trigger] holders[k],
                        amounts[k],
                    );
                assert(k != i);
            }
        }
    }
}

/// A pool token's snapshot lists the same holders as the balances
/// themselves would: what a balance is worth does not decide who is in.
pub proof fn lemma_pool_snapshot_holders(
    holders: Seq<Address>,
    amounts: Seq<nat>,
    n: nat,
    total_supply: nat,
    reserve: nat,
)
    ensures
        held_underlying(holders, amounts, n, total_supply, reserve).len() == held(
            holders,
            amounts,
            n,
        ).len(),
        forall|j: int|
            0 <= j < held(holders, amounts, n).len() ==> (#[trigger] held_underlying(
                holders,
                amounts,
                n,
                total_supply,
                reserve,
            )[j]).0 == held(holders, amounts, n)[j].0,
        holding(holders, amounts, n).len() == held(holders, amounts, n).len(),
        forall|j: int|
            0 <= j < held(holders, amounts, n).len() ==> #[trigger] holding(holders, amounts, n)[j]
                == held(holders, amounts, n)[j].0,
{
}

} // verus!
