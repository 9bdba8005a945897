//! Reservations that back global orders from outside the market.
//!
//! A global order holds nothing back from its seat. Its funds sit in an
//! account that is shared between markets, one account for each asset, where
//! every trader has a deposit. The market reads these accounts to see whether
//! a global order is backed, and takes from them what a fill of such an order
//! delivers.

use vstd::prelude::*;
use crate::seats::same_identity;
use crate::state::Identity;

verus! {

/// What one trader has put into a global account.
#[derive(Clone, Copy, Debug, PartialEq, Eq)]
pub struct GlobalDeposit {
    pub trader: Identity,
    pub atoms: u64,
}

/// A global account for one asset. A trader is looked up from the front, so
/// of several deposits of one trader only the first counts.
#[derive(Debug, PartialEq, Eq)]
pub struct GlobalAccount {
    pub deposits: Vec<GlobalDeposit>,
}

/// The global accounts that a caller brings along: one for the base asset,
/// one for the quote asset, each of them optional.
#[derive(Debug, PartialEq, Eq)]
pub struct GlobalAccounts {
    pub base: Option<GlobalAccount>,
    pub quote: Option<GlobalAccount>,
}

/// The global accounts as a mathematical value.
pub struct GlobalAccountsView {
    pub base: Option<Seq<GlobalDeposit>>,
    pub quote: Option<Seq<GlobalDeposit>>,
}

/// Position of the first deposit of `trader` at or after `from`, or the
/// length of the account when there is none.
pub open spec fn deposit_position(deposits: Seq<GlobalDeposit>, trader: Seq<u8>, from: int) -> int
    decreases deposits.len() - from,
{
    if 0 <= from < deposits.len() && deposits[from].trader@ != trader {
        deposit_position(deposits, trader, from + 1)
    } else {
        from
    }
}

/// Atoms that `trader` has in the account.
pub open spec fn deposited(deposits: Seq<GlobalDeposit>, trader: Seq<u8>) -> nat {
    let at = deposit_position(deposits, trader, 0);
    if 0 <= at < deposits.len() {
        deposits[at].atoms as nat
    } else {
        0
    }
}

/// The account after `atoms` were taken from the deposit of `trader`.
pub open spec fn withdrawn(deposits: Seq<GlobalDeposit>, trader: Seq<u8>, atoms: nat) -> Seq<
    GlobalDeposit,
> {
    let at = deposit_position(deposits, trader, 0);
    if 0 <= at < deposits.len() {
        deposits.update(
            at,
            GlobalDeposit { atoms: (deposits[at].atoms - atoms) as u64, ..deposits[at] },
        )
    } else {
        deposits
    }
}

impl GlobalAccountsView {
    /// The account of the base or of the quote asset.
    pub open spec fn account(self, is_base: bool) -> Option<Seq<GlobalDeposit>> {
        if is_base {
            self.base
        } else {
            self.quote
        }
    }

    /// Atoms of one asset that back the global orders of `trader`: what the
    /// trader has in that asset's account, and nothing without the account.
    pub open spec fn backing(self, is_base: bool, trader: Seq<u8>) -> nat {
        match self.account(is_base) {
            Some(deposits) => deposited(deposits, trader),
            None => 0,
        }
    }

    /// The accounts after `atoms` of one asset were taken from `trader`.
    pub open spec fn debited(self, is_base: bool, trader: Seq<u8>, atoms: nat) -> GlobalAccountsView {
        match self.account(is_base) {
            Some(deposits) => if is_base {
                GlobalAccountsView { base: Some(withdrawn(deposits, trader, atoms)), ..self }
            } else {
                GlobalAccountsView { quote: Some(withdrawn(deposits, trader, atoms)), ..self }
            },
            None => self,
        }
    }
}

impl View for GlobalAccount {
    type V = Seq<GlobalDeposit>;

    open spec fn view(&self) -> Seq<GlobalDeposit> {
        self.deposits@
    }
}

impl View for GlobalAccounts {
    type V = GlobalAccountsView;

    open spec fn view(&self) -> GlobalAccountsView {
        GlobalAccountsView {
            base: match self.base {
                Some(account) => Some(account@),
                None => None,
            },
            quote: match self.quote {
                Some(account) => Some(account@),
                None => None,
            },
        }
    }
}

impl GlobalAccount {
    /// Position of the first deposit of `trader`, or the length of the
    /// account when there is none.
    fn position(&self, trader: &Identity) -> (at: usize)
        ensures
            at == deposit_position(self@, trader@, 0),
            at <= self@.len(),
    {
        let mut at: usize = 0;
        while at < self.deposits.len()
            invariant
                at <= self.deposits.len(),
                deposit_position(self@, trader@, at as int) == deposit_position(
                    self@,
                    trader@,
                    0,
                ),
            decreases self.deposits.len() - at,
        {
            if same_identity(&self.deposits[at].trader, trader) {
                return at;
            }
            at = at + 1;
        }
        at
    }

    /// A copy of the account.
    pub fn duplicate(&self) -> (copy: GlobalAccount)
        ensures
            copy@ == self@,
    {
        let mut deposits: Vec<GlobalDeposit> = Vec::new();
        let mut i: usize = 0;
        while i < self.deposits.len()
            invariant
                i <= self.deposits.len(),
                deposits@ == self.deposits@.subrange(0, i as int),
            decreases self.deposits.len() - i,
        {
            deposits.push(self.deposits[i]);
            i = i + 1;
            assert(deposits@ =~= self.deposits@.subrange(0, i as int));
        }
        assert(deposits@ =~= self.deposits@);
        GlobalAccount { deposits }
    }

    /// Atoms that `trader` has in the account.
    pub fn deposited(&self, trader: &Identity) -> (atoms: u64)
        ensures
            atoms == deposited(self@, trader@),
    {
        let at: usize = self.position(trader);
        if at < self.deposits.len() {
            self.deposits[at].atoms
        } else {
            0
        }
    }

    /// Takes `atoms` from the deposit of `trader`.
    pub fn withdraw(&mut self, trader: &Identity, atoms: u64)
        requires
            atoms <= deposited(old(self)@, trader@),
        ensures
            final(self)@ == withdrawn(old(self)@, trader@, atoms as nat),
    {
        let at: usize = self.position(trader);
        if at < self.deposits.len() {
            let deposit: GlobalDeposit = self.deposits[at];
            self.deposits.set(at, GlobalDeposit { atoms: deposit.atoms - atoms, ..deposit });
        }
    }
}

impl GlobalAccounts {
    /// No global accounts at all: every global order counts as not backed.
    pub fn none() -> (accounts: GlobalAccounts)
        ensures
            accounts@ == (GlobalAccountsView { base: None, quote: None }),
    {
        GlobalAccounts { base: None, quote: None }
    }

    /// A copy of the accounts.
    pub fn duplicate(&self) -> (copy: GlobalAccounts)
        ensures
            copy@ == self@,
    {
        GlobalAccounts {
            base: match &self.base {
                Some(account) => Some(account.duplicate()),
                None => None,
            },
            quote: match &self.quote {
                Some(account) => Some(account.duplicate()),
                None => None,
            },
        }
    }

    /// Atoms of one asset that back the global orders of `trader`.
    pub fn backing(&self, is_base: bool, trader: &Identity) -> (atoms: u64)
        ensures
            atoms == self@.backing(is_base, trader@),
    {
        if is_base {
            match &self.base {
                Some(account) => account.deposited(trader),
                None => 0,
            }
        } else {
            match &self.quote {
                Some(account) => account.deposited(trader),
                None => 0,
            }
        }
    }

    /// Takes `atoms` of one asset from the deposit of `trader`.
    pub fn debit(&mut self, is_base: bool, trader: &Identity, atoms: u64)
        requires
            atoms <= old(self)@.backing(is_base, trader@),
        ensures
            final(self)@ == old(self)@.debited(is_base, trader@, atoms as nat),
    {
        if is_base {
            match &mut self.base {
                Some(account) => {
                    account.withdraw(trader, atoms);
                },
                None => {},
            }
        } else {
            match &mut self.quote {
                Some(account) => {
                    account.withdraw(trader, atoms);
                },
                None => {},
            }
        }
    }
}

} // verus!
