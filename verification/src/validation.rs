//! Voter validation: the identity registry, the token balances the stakes
//! burn from, the stake ledger and the juror selection state.
//!
//! One state value holds four groups of tables: account balances with the
//! outstanding total supply; the registry mapping an external account name
//! to a dense user id with its voter profile; the stake ledger, which
//! records at most one accepted juror stake per (subject, staker) pair and
//! burns the stake on acceptance; and the sortition state, a per-subject
//! jury pool of remaining weights beside the cumulative set of already
//! drawn jurors.

use crate::errors::Error;
use crate::maps::IdMap;
use crate::maps::StrMap;
use crate::maps::lemma_insert_fresh_at_end;
use crate::maps::lemma_kv_map_domain;
use crate::maps::lemma_kv_map_index;
use crate::maps::lemma_sorted_implies_unique;
use crate::maps::lemma_sum_entry_bound;
use crate::maps::lemma_sum_insert_at;
use crate::maps::lemma_sum_nonneg;
use crate::maps::lemma_sum_push;
use crate::maps::lemma_sum_subset;
use crate::maps::lemma_sum_update;
use crate::maps::sum_vals;
use crate::sampling::has_positive;
use crate::sampling::pad32;
use crate::sortition::draw_count;
use crate::sortition::drawn_ids;
use crate::sortition::weighted_draw;
use crate::sortition::weights_of;
use vstd::prelude::*;

verus! {

/// A registered voter profile: the profile document hash and whether
/// know-your-customer checks have completed.
pub struct Voter {
    pub profile_hash: String,
    pub kyc_done: bool,
}

pub struct FungibleToken {
    accounts: StrMap<u128>,
    total_supply: u128,
    user_id: u128,
    user_map: StrMap<u128>,
    voter_profile_map: IdMap<Voter>,
    voter_if_staked: IdMap<bool>,
    voter_stakes: IdMap<u128>,
    user_juror_stakes: IdMap<IdMap<u128>>,
    user_juror_stakes_clone: IdMap<IdMap<u128>>,
    selected_juror: IdMap<Vec<u128>>,
}

impl FungibleToken {
    /// Account balances by account name.
    pub closed spec fn balances(&self) -> Map<Seq<char>, u128> {
        self.accounts.to_map()
    }

    /// The outstanding token supply; burns reduce it.
    pub closed spec fn supply(&self) -> u128 {
        self.total_supply
    }

    /// The registry: account name to user id.
    pub closed spec fn users(&self) -> Map<Seq<char>, u128> {
        self.user_map.to_map()
    }

    /// How many users are registered; ids run from 1 to this count.
    pub closed spec fn user_count(&self) -> u128 {
        self.user_id
    }

    /// Voter profiles by user id.
    pub closed spec fn profiles(&self) -> Map<u128, Voter> {
        self.voter_profile_map.to_map()
    }

    /// The self-staked flag per user id.
    pub closed spec fn staked_flags(&self) -> Map<u128, bool> {
        self.voter_if_staked.to_map()
    }

    /// The recorded self-stake per user id.
    pub closed spec fn stakes(&self) -> Map<u128, u128> {
        self.voter_stakes.to_map()
    }

    pub closed spec fn stake_records(&self) -> Map<u128, IdMap<u128>> {
        self.user_juror_stakes.to_map()
    }

    pub closed spec fn jury_pools(&self) -> Map<u128, IdMap<u128>> {
        self.user_juror_stakes_clone.to_map()
    }

    pub closed spec fn selections(&self) -> Map<u128, Vec<u128>> {
        self.selected_juror.to_map()
    }

    pub open spec fn balance_of(&self, id: Seq<char>) -> u128 {
        if self.balances().dom().contains(id) {
            self.balances()[id]
        } else {
            0
        }
    }

    pub open spec fn is_staked(&self, uid: u128) -> bool {
        self.staked_flags().dom().contains(uid) && self.staked_flags()[uid]
    }

    pub open spec fn has_record(&self, subject: u128) -> bool {
        self.stake_records().dom().contains(subject)
    }

    /// The accepted juror stakes against a subject, staker id to amount;
    /// empty when nobody has staked.
    pub open spec fn record(&self, subject: u128) -> Map<u128, u128> {
        if self.has_record(subject) {
            self.stake_records()[subject].to_map()
        } else {
            Map::empty()
        }
    }

    /// The record as its canonical entry snapshot, sorted by staker id.
    pub open spec fn record_entries(&self, subject: u128) -> Seq<(u128, u128)> {
        if self.has_record(subject) {
            self.stake_records()[subject].entries_seq()
        } else {
            Seq::empty()
        }
    }

    pub open spec fn has_pool(&self, subject: u128) -> bool {
        self.jury_pools().dom().contains(subject)
    }

    /// The subject's jury pool, staker id to remaining weight.
    pub open spec fn pool(&self, subject: u128) -> Map<u128, u128> {
        if self.has_pool(subject) {
            self.jury_pools()[subject].to_map()
        } else {
            Map::empty()
        }
    }

    /// The pool as its canonical entry snapshot, sorted by staker id.
    pub open spec fn pool_entries(&self, subject: u128) -> Seq<(u128, u128)> {
        if self.has_pool(subject) {
            self.jury_pools()[subject].entries_seq()
        } else {
            Seq::empty()
        }
    }

    pub open spec fn has_selection(&self, subject: u128) -> bool {
        self.selections().dom().contains(subject)
    }

    /// The jurors drawn for a subject so far, in draw order.
    pub open spec fn selection(&self, subject: u128) -> Seq<u128> {
        if self.has_selection(subject) {
            self.selections()[subject]@
        } else {
            Seq::empty()
        }
    }

    closed spec fn accounts_ok(&self) -> bool {
        &&& self.accounts.wf()
        &&& sum_vals(self.accounts.keyed()) == self.total_supply
    }

    closed spec fn registry_ok(&self) -> bool {
        &&& self.user_map.wf()
        &&& self.user_id == self.user_map.keyed().len()
        &&& (forall|i: int|
            0 <= i < self.user_map.keyed().len() ==> #[trigger] self.user_map.keyed()[i].1 == i
                + 1)
        &&& self.voter_profile_map.wf()
        &&& self.voter_profile_map.entries_seq().len() == self.user_id
        &&& (forall|i: int|
            0 <= i < self.voter_profile_map.entries_seq().len()
                ==> #[trigger] self.voter_profile_map.entries_seq()[i].0 == i + 1)
        &&& self.voter_if_staked.wf()
        &&& self.voter_stakes.wf()
    }

    closed spec fn stake_side_ok(&self) -> bool {
        &&& self.user_juror_stakes.wf()
        &&& (forall|s: u128| #[trigger]
            self.stake_records().dom().contains(s) ==> self.stake_records()[s].wf()
                && self.total_supply + sum_vals(self.stake_records()[s].entries_seq())
                <= u128::MAX)
        &&& self.user_juror_stakes_clone.wf()
        &&& (forall|s: u128| #[trigger]
            self.jury_pools().dom().contains(s) ==> self.jury_pools()[s].wf()
                && self.stake_records().dom().contains(s) && Self::submap(
                self.jury_pools()[s].to_map(),
                self.stake_records()[s].to_map(),
            ))
        &&& self.selected_juror.wf()
        &&& (forall|s: u128| #[trigger]
            self.selections().dom().contains(s) ==> self.stake_records().dom().contains(s)
                && Self::selection_ok(
                self.selections()[s]@,
                self.stake_records()[s].to_map(),
                self.pool(s),
            ))
    }

    pub closed spec fn wf(&self) -> bool {
        &&& self.accounts_ok()
        &&& self.registry_ok()
        &&& self.stake_side_ok()
    }

    /// A state whose stake tables are unchanged and whose supply did not
    /// grow keeps the stake-side invariants.
    proof fn lemma_stake_side_frame(pre: &Self, post: &Self)
        requires
            pre.stake_side_ok(),
            post.user_juror_stakes == pre.user_juror_stakes,
            post.user_juror_stakes_clone == pre.user_juror_stakes_clone,
            post.selected_juror == pre.selected_juror,
            post.total_supply <= pre.total_supply,
        ensures
            post.stake_side_ok(),
    {
        assert(post.stake_records() == pre.stake_records());
        assert(post.jury_pools() == pre.jury_pools());
        assert(post.selections() == pre.selections());
        assert forall|s: u128| #[trigger]
            post.stake_records().dom().contains(s) implies post.stake_records()[s].wf()
            && post.total_supply + sum_vals(post.stake_records()[s].entries_seq())
            <= u128::MAX by {
            assert(pre.stake_records().dom().contains(s));
        }
        assert forall|s: u128| #[trigger]
            post.selections().dom().contains(s) implies post.stake_records().dom().contains(s)
            && Self::selection_ok(
            post.selections()[s]@,
            post.stake_records()[s].to_map(),
            post.pool(s),
        ) by {
            assert(pre.selections().dom().contains(s));
            assert(post.pool(s) == pre.pool(s));
        }
    }

    /// A state whose registry tables are unchanged, staking tables aside,
    /// keeps the registry invariants.
    proof fn lemma_registry_frame(pre: &Self, post: &Self)
        requires
            pre.registry_ok(),
            post.user_map == pre.user_map,
            post.user_id == pre.user_id,
            post.voter_profile_map == pre.voter_profile_map,
            post.voter_if_staked.wf(),
            post.voter_stakes.wf(),
        ensures
            post.registry_ok(),
    {
    }

    /// Every entry of `a` appears in `b` with the same value.
    pub open spec fn submap(a: Map<u128, u128>, b: Map<u128, u128>) -> bool {
        forall|k: u128| #[trigger]
            a.dom().contains(k) ==> b.dom().contains(k) && b[k] == a[k]
    }

    /// A selection lists distinct jurors, each with a positive accepted
    /// stake on record and no remaining weight in the pool.
    pub open spec fn selection_ok(
        sel: Seq<u128>,
        record: Map<u128, u128>,
        pool: Map<u128, u128>,
    ) -> bool {
        &&& (forall|a: int, b: int| 0 <= a < b < sel.len() ==> sel[a] != sel[b])
        &&& (forall|m: int|
            0 <= m < sel.len() ==> record.dom().contains(#[trigger] sel[m]) && record[sel[m]] > 0
                && !pool.dom().contains(sel[m]))
    }

    /// Sets up the ledger with the whole supply on the owner's account and
    /// every other table empty.
    pub fn new(owner_id: &String, total_supply: u128) -> (r: Self)
        ensures
            r.wf(),
            r.supply() == total_supply,
            r.balances() == Map::<Seq<char>, u128>::empty().insert(owner_id@, total_supply),
            r.users() == Map::<Seq<char>, u128>::empty(),
            r.user_count() == 0,
            r.profiles() == Map::<u128, Voter>::empty(),
            r.staked_flags() == Map::<u128, bool>::empty(),
            r.stakes() == Map::<u128, u128>::empty(),
            r.stake_records() == Map::<u128, IdMap<u128>>::empty(),
            r.jury_pools() == Map::<u128, IdMap<u128>>::empty(),
            r.selections() == Map::<u128, Vec<u128>>::empty(),
    {
        let mut accounts = StrMap::new();
        let ghost empty_keyed = accounts.keyed();
        accounts.insert(owner_id, total_supply);
        proof {
            assert(accounts.keyed() == empty_keyed.push((owner_id@, total_supply)));
            lemma_sum_push(empty_keyed, (owner_id@, total_supply));
        }
        FungibleToken {
            accounts,
            total_supply,
            user_id: 0,
            user_map: StrMap::new(),
            voter_profile_map: IdMap::new(),
            voter_if_staked: IdMap::new(),
            voter_stakes: IdMap::new(),
            user_juror_stakes: IdMap::new(),
            user_juror_stakes_clone: IdMap::new(),
            selected_juror: IdMap::new(),
        }
    }

    /// The outstanding supply: what was minted minus what burns consumed.
    pub fn get_total_supply(&self) -> (r: u128)
        ensures
            r == self.supply(),
    {
        self.total_supply
    }

    /// An account's balance; an account that never received tokens holds
    /// zero.
    pub fn get_balance(&self, owner_id: &String) -> (r: u128)
        requires
            self.wf(),
        ensures
            r == self.balance_of(owner_id@),
    {
        match self.accounts.get(owner_id) {
            Some(b) => *b,
            None => 0,
        }
    }

    /// Moves tokens between two distinct accounts; the supply is unchanged.
    pub fn transfer(&mut self, sender: &String, new_owner_id: &String, amount: u128) -> (r: Result<
        (),
        Error,
    >)
        requires
            old(self).wf(),
            sender@ != new_owner_id@,
        ensures
            final(self).wf(),
            r is Ok <==> old(self).balance_of(sender@) >= amount,
            r is Ok ==> final(self).balances() == old(self).balances().insert(
                sender@,
                (old(self).balance_of(sender@) - amount) as u128,
            ).insert(new_owner_id@, (old(self).balance_of(new_owner_id@) + amount) as u128),
            r is Err ==> *final(self) == *old(self) && r == Err::<(), Error>(
                Error::InsufficientBalance,
            ),
            final(self).supply() == old(self).supply(),
            final(self).users() == old(self).users(),
            final(self).stake_records() == old(self).stake_records(),
            final(self).jury_pools() == old(self).jury_pools(),
            final(self).selections() == old(self).selections(),
            final(self).stakes() == old(self).stakes(),
            final(self).staked_flags() == old(self).staked_flags(),
            final(self).profiles() == old(self).profiles(),
            final(self).user_count() == old(self).user_count(),
    {
        let sender_bal = self.get_balance(sender);
        if sender_bal < amount {
            return Err(Error::InsufficientBalance);
        }
        let ghost keyed0 = self.accounts.keyed();
        self.accounts.insert(sender, sender_bal - amount);
        proof {
            Self::lemma_insert_sum(keyed0, self.accounts.keyed(), sender@, (sender_bal - amount) as u128, old(self).balance_of(sender@));
            assert(sum_vals(self.accounts.keyed()) == old(self).supply() - amount);
        }
        let ghost keyed1 = self.accounts.keyed();
        let recv_bal = match self.accounts.get(new_owner_id) {
            Some(b) => *b,
            None => 0,
        };
        proof {
            lemma_sum_nonneg(keyed1);
            if crate::maps::kv_map(keyed1).dom().contains(new_owner_id@) {
                lemma_kv_map_domain(keyed1, new_owner_id@);
                let i = choose|i: int| 0 <= i < keyed1.len() && #[trigger] keyed1[i].0 == new_owner_id@;
                lemma_kv_map_index(keyed1, i);
                lemma_sum_entry_bound(keyed1, i);
            }
            assert(recv_bal + amount <= u128::MAX);
        }
        self.accounts.insert(new_owner_id, recv_bal + amount);
        proof {
            Self::lemma_insert_sum(keyed1, self.accounts.keyed(), new_owner_id@, (recv_bal + amount) as u128, recv_bal);
            assert(sum_vals(self.accounts.keyed()) == old(self).supply());
            assert(recv_bal == old(self).balance_of(new_owner_id@));
            Self::lemma_stake_side_frame(old(self), self);
            Self::lemma_registry_frame(old(self), self);
        }
        Ok(())
    }

    /// After a `StrMap` insert, the value sum moved by the difference
    /// between the new value and the value the key held before (zero when
    /// absent).
    proof fn lemma_insert_sum(
        keyed0: Seq<(Seq<char>, u128)>,
        keyed1: Seq<(Seq<char>, u128)>,
        k: Seq<char>,
        v: u128,
        old_val: u128,
    )
        requires
            crate::maps::unique_keys(keyed0),
            crate::maps::kv_map(keyed0).dom().contains(k) ==> exists|i: int|
                0 <= i < keyed0.len() && #[trigger] keyed0[i].0 == k && keyed1 == keyed0.update(
                    i,
                    (k, v),
                ),
            !crate::maps::kv_map(keyed0).dom().contains(k) ==> keyed1 == keyed0.push((k, v)),
            old_val == if crate::maps::kv_map(keyed0).dom().contains(k) {
                crate::maps::kv_map(keyed0)[k]
            } else {
                0u128
            },
        ensures
            sum_vals(keyed1) == sum_vals(keyed0) - old_val + v,
    {
        if crate::maps::kv_map(keyed0).dom().contains(k) {
            let i = choose|i: int|
                0 <= i < keyed0.len() && #[trigger] keyed0[i].0 == k && keyed1 == keyed0.update(
                    i,
                    (k, v),
                );
            lemma_kv_map_index(keyed0, i);
            lemma_sum_update(keyed0, i, (k, v));
        } else {
            lemma_sum_push(keyed0, (k, v));
        }
    }

    /// Irreversibly deducts tokens from an account, reducing the supply;
    /// on failure nothing changes.
    fn burn(&mut self, account_id: &String, amount: u128) -> (r: Result<(), Error>)
        requires
            old(self).wf(),
        ensures
            final(self).wf(),
            r is Ok <==> old(self).balance_of(account_id@) >= amount,
            r is Ok ==> final(self).balances() == old(self).balances().insert(
                account_id@,
                (old(self).balance_of(account_id@) - amount) as u128,
            ) && final(self).supply() == old(self).supply() - amount,
            r is Err ==> *final(self) == *old(self) && r == Err::<(), Error>(
                Error::InsufficientBalance,
            ),
            final(self).users() == old(self).users(),
            final(self).stake_records() == old(self).stake_records(),
            final(self).jury_pools() == old(self).jury_pools(),
            final(self).selections() == old(self).selections(),
            final(self).stakes() == old(self).stakes(),
            final(self).staked_flags() == old(self).staked_flags(),
            final(self).profiles() == old(self).profiles(),
            final(self).user_count() == old(self).user_count(),
    {
        let bal = self.get_balance(account_id);
        if bal < amount {
            return Err(Error::InsufficientBalance);
        }
        let ghost keyed0 = self.accounts.keyed();
        proof {
            lemma_sum_nonneg(keyed0);
            if crate::maps::kv_map(keyed0).dom().contains(account_id@) {
                lemma_kv_map_domain(keyed0, account_id@);
                let i = choose|i: int| 0 <= i < keyed0.len() && #[trigger] keyed0[i].0 == account_id@;
                lemma_kv_map_index(keyed0, i);
                lemma_sum_entry_bound(keyed0, i);
            }
            assert(amount <= self.total_supply);
        }
        self.accounts.insert(account_id, bal - amount);
        self.total_supply = self.total_supply - amount;
        proof {
            Self::lemma_insert_sum(
                keyed0,
                self.accounts.keyed(),
                account_id@,
                (bal - amount) as u128,
                bal,
            );
            Self::lemma_stake_side_frame(old(self), self);
            Self::lemma_registry_frame(old(self), self);
        }
        Ok(())
    }

    /// The user id an account name is registered under.
    pub fn get_user_id(&self, account_id: &String) -> (r: Result<u128, Error>)
        requires
            self.wf(),
        ensures
            match r {
                Ok(id) => self.users().dom().contains(account_id@) && id
                    == self.users()[account_id@],
                Err(e) => e == Error::UnknownIdentity && !self.users().dom().contains(
                    account_id@,
                ),
            },
    {
        match self.user_map.get(account_id) {
            Some(id) => Ok(*id),
            None => Err(Error::UnknownIdentity),
        }
    }

    /// The stored profile of a registered user id.
    pub fn get_voter_details(&self, user_id: u128) -> (r: &Voter)
        requires
            self.wf(),
            self.profiles().dom().contains(user_id),
        ensures
            *r == self.profiles()[user_id],
    {
        match self.voter_profile_map.get(user_id) {
            Some(v) => v,
            None => {
                proof {
                    assert(false);
                }
                unreached()
            },
        }
    }

    /// The recorded self-stake of a user that has staked.
    pub fn get_voter_stake(&self, user_id: u128) -> (r: u128)
        requires
            self.wf(),
            self.stakes().dom().contains(user_id),
        ensures
            r == self.stakes()[user_id],
    {
        match self.voter_stakes.get(user_id) {
            Some(v) => *v,
            None => {
                proof {
                    assert(false);
                }
                unreached()
            },
        }
    }

    /// Registers the caller's voter profile under the next sequential user
    /// id, starting at 1; an identity registers at most once.
    pub fn create_voter_profile(&mut self, caller: &String, profile_hash: String) -> (r: Result<
        u128,
        Error,
    >)
        requires
            old(self).wf(),
        ensures
            final(self).wf(),
            r is Ok <==> !old(self).users().dom().contains(caller@),
            r is Ok ==> {
                &&& r->Ok_0 == old(self).user_count() + 1
                &&& final(self).user_count() == old(self).user_count() + 1
                &&& final(self).users() == old(self).users().insert(caller@, r->Ok_0)
                &&& final(self).profiles() == old(self).profiles().insert(
                    r->Ok_0,
                    (Voter { profile_hash: profile_hash, kyc_done: false }),
                )
            },
            r is Err ==> *final(self) == *old(self) && r == Err::<u128, Error>(
                Error::ProfileAlreadyExists,
            ),
            final(self).balances() == old(self).balances(),
            final(self).supply() == old(self).supply(),
            final(self).stake_records() == old(self).stake_records(),
            final(self).jury_pools() == old(self).jury_pools(),
            final(self).selections() == old(self).selections(),
            final(self).stakes() == old(self).stakes(),
            final(self).staked_flags() == old(self).staked_flags(),
    {
        if self.user_map.contains_key(caller) {
            return Err(Error::ProfileAlreadyExists);
        }
        let n = self.user_map.len();
        let ghost users0 = self.user_map.keyed();
        let ghost profiles0 = self.voter_profile_map.entries_seq();
        self.user_id = self.user_id + 1;
        let id = self.user_id;
        self.user_map.insert(caller, id);
        proof {
            assert(self.user_map.keyed() == users0.push((caller@, id)));
            assert(forall|i: int|
                0 <= i < self.user_map.keyed().len() ==> #[trigger] self.user_map.keyed()[i].1
                    == i + 1);
        }
        proof {
            lemma_kv_map_domain(profiles0, id);
        }
        self.voter_profile_map.insert(
            id,
            Voter { profile_hash, kyc_done: false },
        );
        proof {
            lemma_insert_fresh_at_end(
                profiles0,
                self.voter_profile_map.entries_seq(),
                id,
                self.voter_profile_map.to_map()[id],
            );
            assert(forall|i: int|
                0 <= i < self.voter_profile_map.entries_seq().len()
                    ==> #[trigger] self.voter_profile_map.entries_seq()[i].0 == i + 1);
            Self::lemma_stake_side_frame(old(self), self);
        }
        Ok(id)
    }

    /// Stakes the caller's own amount once: a repeat call changes nothing,
    /// a first call burns the amount and records it.
    pub fn create_voter_stake(&mut self, caller: &String, stake: u128) -> (r: Result<(), Error>)
        requires
            old(self).wf(),
        ensures
            final(self).wf(),
            !old(self).users().dom().contains(caller@) ==> r == Err::<(), Error>(
                Error::UnknownIdentity,
            ) && *final(self) == *old(self),
            old(self).users().dom().contains(caller@) ==> {
                let uid = old(self).users()[caller@];
                if old(self).is_staked(uid) {
                    r is Ok && *final(self) == *old(self)
                } else if old(self).balance_of(caller@) < stake {
                    r == Err::<(), Error>(Error::InsufficientBalance) && *final(self) == *old(
                        self,
                    )
                } else {
                    &&& r is Ok
                    &&& final(self).balances() == old(self).balances().insert(
                        caller@,
                        (old(self).balance_of(caller@) - stake) as u128,
                    )
                    &&& final(self).supply() == old(self).supply() - stake
                    &&& final(self).stakes() == old(self).stakes().insert(uid, stake)
                    &&& final(self).staked_flags() == old(self).staked_flags().insert(uid, true)
                    &&& final(self).users() == old(self).users()
                    &&& final(self).profiles() == old(self).profiles()
                    &&& final(self).stake_records() == old(self).stake_records()
                    &&& final(self).jury_pools() == old(self).jury_pools()
                    &&& final(self).selections() == old(self).selections()
                }
            },
    {
        let uid = match self.get_user_id(caller) {
            Ok(id) => id,
            Err(_) => {
                return Err(Error::UnknownIdentity);
            },
        };
        let already = match self.voter_if_staked.get(uid) {
            Some(b) => *b,
            None => false,
        };
        if already {
            return Ok(());
        }
        match self.burn(caller, stake) {
            Err(e) => {
                return Err(e);
            },
            Ok(()) => {},
        }
        let ghost mid = *self;
        self.voter_if_staked.insert(uid, true);
        self.voter_stakes.insert(uid, stake);
        proof {
            Self::lemma_stake_side_frame(&mid, self);
            Self::lemma_registry_frame(&mid, self);
            assert(self.accounts_ok()) by {
                assert(self.accounts == mid.accounts);
            }
        }
        Ok(())
    }

    /// After an `IdMap` insert, the value sum moved by the difference
    /// between the new value and the value the key held before (zero when
    /// absent).
    proof fn lemma_idmap_insert_sum(
        e0: Seq<(u128, u128)>,
        e1: Seq<(u128, u128)>,
        k: u128,
        v: u128,
        old_val: u128,
    )
        requires
            crate::maps::unique_keys(e0),
            crate::maps::kv_map(e0).dom().contains(k) ==> exists|i: int|
                0 <= i < e0.len() && #[trigger] e0[i].0 == k && e1 == e0.update(i, (k, v)),
            !crate::maps::kv_map(e0).dom().contains(k) ==> exists|i: int|
                0 <= i <= e0.len() && e1 == #[trigger] e0.insert(i, (k, v)),
            old_val == if crate::maps::kv_map(e0).dom().contains(k) {
                crate::maps::kv_map(e0)[k]
            } else {
                0u128
            },
        ensures
            sum_vals(e1) == sum_vals(e0) - old_val + v,
    {
        if crate::maps::kv_map(e0).dom().contains(k) {
            let i = choose|i: int|
                0 <= i < e0.len() && #[trigger] e0[i].0 == k && e1 == e0.update(i, (k, v));
            lemma_kv_map_index(e0, i);
            lemma_sum_update(e0, i, (k, v));
        } else {
            let i = choose|i: int| 0 <= i <= e0.len() && e1 == #[trigger] e0.insert(i, (k, v));
            lemma_sum_insert_at(e0, i, (k, v));
        }
    }

    /// Records a juror's one-time stake against a subject: resolves both
    /// identities, refuses a second accepted stake for the same
    /// (subject, staker) pair, burns the stake from the juror's account and
    /// enters it into the subject's stake record and jury pool as weight;
    /// acceptance and pool insertion stand or fall together.
    pub fn apply_jurors(&mut self, caller: &String, voter_username: &String, stake: u128) -> (r:
        Result<(), Error>)
        requires
            old(self).wf(),
        ensures
            final(self).wf(),
            (!old(self).users().dom().contains(caller@) || !old(self).users().dom().contains(
                voter_username@,
            )) ==> r == Err::<(), Error>(Error::UnknownIdentity) && *final(self) == *old(self),
            (old(self).users().dom().contains(caller@) && old(self).users().dom().contains(
                voter_username@,
            )) ==> {
                let staker = old(self).users()[caller@];
                let subject = old(self).users()[voter_username@];
                if old(self).record(subject).dom().contains(staker) && old(self).record(subject)[
                    staker
                ] > 0 {
                    r == Err::<(), Error>(Error::DuplicateStake) && *final(self) == *old(self)
                } else if old(self).balance_of(caller@) < stake {
                    r == Err::<(), Error>(Error::InsufficientBalance) && *final(self) == *old(
                        self,
                    )
                } else {
                    &&& r is Ok
                    &&& final(self).balances() == old(self).balances().insert(
                        caller@,
                        (old(self).balance_of(caller@) - stake) as u128,
                    )
                    &&& final(self).supply() == old(self).supply() - stake
                    &&& final(self).has_record(subject)
                    &&& final(self).record(subject) == old(self).record(subject).insert(
                        staker,
                        stake,
                    )
                    &&& final(self).has_pool(subject)
                    &&& final(self).pool(subject) == old(self).pool(subject).insert(
                        staker,
                        stake,
                    )
                    &&& (forall|s: u128|
                        s != subject ==> final(self).record(s) == old(self).record(s)
                            && final(self).pool(s) == old(self).pool(s))
                    &&& final(self).selections() == old(self).selections()
                    &&& final(self).users() == old(self).users()
                    &&& final(self).profiles() == old(self).profiles()
                    &&& final(self).stakes() == old(self).stakes()
                    &&& final(self).staked_flags() == old(self).staked_flags()
                    &&& sum_vals(final(self).record_entries(subject)) == sum_vals(
                        old(self).record_entries(subject),
                    ) + stake
                }
            },
    {
        let staker = match self.get_user_id(caller) {
            Ok(id) => id,
            Err(e) => {
                return Err(e);
            },
        };
        let subject = match self.get_user_id(voter_username) {
            Ok(id) => id,
            Err(e) => {
                return Err(e);
            },
        };
        let ghost old_val = if old(self).record(subject).dom().contains(staker) {
            old(self).record(subject)[staker]
        } else {
            0u128
        };
        let dup = match self.user_juror_stakes.get(subject) {
            Some(inner) => {
                match inner.get(staker) {
                    Some(v) => *v > 0,
                    None => false,
                }
            },
            None => false,
        };
        if dup {
            return Err(Error::DuplicateStake);
        }
        match self.burn(caller, stake) {
            Err(e) => {
                return Err(e);
            },
            Ok(()) => {},
        }
        let ghost mid = *self;
        let mut inner = match self.user_juror_stakes.remove(subject) {
            Some(m) => m,
            None => IdMap::new(),
        };
        let ghost inner0 = inner.entries_seq();
        proof {
            assert(inner.to_map() == mid.record(subject));
            lemma_sorted_implies_unique(inner0);
        }
        inner.insert(staker, stake);
        let ghost inner1 = inner.entries_seq();
        proof {
            Self::lemma_idmap_insert_sum(inner0, inner1, staker, stake, old_val);
        }
        self.user_juror_stakes.insert(subject, inner);
        let ghost mid2 = *self;
        let mut pool = match self.user_juror_stakes_clone.remove(subject) {
            Some(m) => m,
            None => IdMap::new(),
        };
        proof {
            assert(pool.to_map() == mid.pool(subject));
        }
        pool.insert(staker, stake);
        self.user_juror_stakes_clone.insert(subject, pool);
        proof {
            let pre = old(self);
            assert(self.stake_records() =~= mid.stake_records().insert(
                subject,
                mid2.stake_records()[subject],
            ));
            assert(self.jury_pools() =~= mid.jury_pools().insert(
                subject,
                self.jury_pools()[subject],
            ));
            assert(self.stake_records()[subject].entries_seq() == inner1);
            assert(self.record(subject) =~= pre.record(subject).insert(staker, stake));
            assert(self.pool(subject) =~= pre.pool(subject).insert(staker, stake));
            assert(mid.stake_records() == pre.stake_records());
            assert(mid.jury_pools() == pre.jury_pools());
            assert(mid.selections() == pre.selections());
            assert(self.selections() == pre.selections());
            // the stake side invariants, table by table
            assert forall|s: u128| #[trigger]
                self.stake_records().dom().contains(s) implies self.stake_records()[s].wf()
                && self.total_supply + sum_vals(self.stake_records()[s].entries_seq())
                <= u128::MAX by {
                if s == subject {
                    assert(sum_vals(inner1) == sum_vals(inner0) - old_val + stake);
                    if pre.has_record(subject) {
                        assert(pre.stake_records().dom().contains(subject));
                        assert(pre.total_supply + sum_vals(inner0) <= u128::MAX);
                    } else {
                        assert(inner0 == Seq::<(u128, u128)>::empty());
                    }
                } else {
                    assert(pre.stake_records().dom().contains(s));
                    assert(self.stake_records()[s] == pre.stake_records()[s]);
                }
            }
            assert forall|s: u128| #[trigger]
                self.jury_pools().dom().contains(s) implies self.jury_pools()[s].wf()
                && self.stake_records().dom().contains(s) && Self::submap(
                self.jury_pools()[s].to_map(),
                self.stake_records()[s].to_map(),
            ) by {
                if s == subject {
                    assert(self.jury_pools()[subject].to_map() == pre.pool(subject).insert(
                        staker,
                        stake,
                    ));
                    assert(self.stake_records()[subject].to_map() == pre.record(subject).insert(
                        staker,
                        stake,
                    ));
                    assert forall|k: u128| #[trigger]
                        self.jury_pools()[s].to_map().dom().contains(k) implies self.stake_records()[
                        s
                    ].to_map().dom().contains(k) && self.stake_records()[s].to_map()[k]
                        == self.jury_pools()[s].to_map()[k] by {
                        if k != staker {
                            assert(pre.pool(subject).dom().contains(k));
                            assert(pre.has_pool(subject));
                            assert(pre.jury_pools().dom().contains(subject));
                            assert(Self::submap(
                                pre.jury_pools()[subject].to_map(),
                                pre.stake_records()[subject].to_map(),
                            ));
                        }
                    }
                } else {
                    assert(pre.jury_pools().dom().contains(s));
                    assert(self.jury_pools()[s] == pre.jury_pools()[s]);
                    assert(self.stake_records()[s] == pre.stake_records()[s]);
                    assert(Self::submap(
                        pre.jury_pools()[s].to_map(),
                        pre.stake_records()[s].to_map(),
                    ));
                }
            }
            assert forall|s: u128| #[trigger]
                self.selections().dom().contains(s) implies self.stake_records().dom().contains(
                s,
            ) && Self::selection_ok(
                self.selections()[s]@,
                self.stake_records()[s].to_map(),
                self.pool(s),
            ) by {
                assert(pre.selections().dom().contains(s));
                assert(Self::selection_ok(
                    pre.selections()[s]@,
                    pre.stake_records()[s].to_map(),
                    pre.pool(s),
                ));
                if s == subject {
                    let sel = pre.selections()[s]@;
                    assert forall|m: int|
                        0 <= m < sel.len() implies self.stake_records()[s].to_map().dom().contains(
                        #[trigger] sel[m],
                    ) && self.stake_records()[s].to_map()[sel[m]] > 0 && !self.pool(
                        s,
                    ).dom().contains(sel[m]) by {
                        assert(pre.stake_records()[s].to_map().dom().contains(sel[m]));
                        assert(pre.stake_records()[s].to_map()[sel[m]] > 0);
                        if sel[m] == staker {
                            assert(pre.record(subject).dom().contains(staker));
                            assert(pre.record(subject)[staker] > 0);
                            assert(false);
                        }
                    }
                } else {
                    assert(self.stake_records()[s] == pre.stake_records()[s]);
                    assert(self.pool(s) == pre.pool(s));
                }
            }
            Self::lemma_registry_frame(&mid, self);
            assert(self.accounts_ok()) by {
                assert(self.accounts == mid.accounts);
                assert(self.total_supply == mid.total_supply);
            }
        }
        Ok(())
    }

    /// The stake a juror has recorded against a subject.
    pub fn get_juror_stakes(&self, voter_user_id: u128, juror_user_id: u128) -> (r: Result<
        u128,
        Error,
    >)
        requires
            self.wf(),
        ensures
            match r {
                Ok(v) => self.has_record(voter_user_id) && self.record(
                    voter_user_id,
                ).dom().contains(juror_user_id) && v == self.record(voter_user_id)[juror_user_id],
                Err(e) => if e == Error::NoStakeForSubject {
                    !self.has_record(voter_user_id)
                } else {
                    e == Error::UnknownStaker && self.has_record(voter_user_id) && !self.record(
                        voter_user_id,
                    ).dom().contains(juror_user_id)
                },
            },
    {
        match self.user_juror_stakes.get(voter_user_id) {
            Some(inner) => {
                proof {
                    assert(self.stake_records().dom().contains(voter_user_id));
                    assert(inner.wf());
                }
                match inner.get(juror_user_id) {
                    Some(v) => Ok(*v),
                    None => Err(Error::UnknownStaker),
                }
            },
            None => Err(Error::NoStakeForSubject),
        }
    }

    /// Draws up to twenty jurors for a subject by stake-weighted sampling
    /// without replacement, seeded by the caller-supplied entropy: drawn
    /// stakers leave the subject's jury pool for good and join its
    /// cumulative selection, so repeated draws never select a juror twice.
    pub fn draw_jurors(&mut self, voter_username: &String, random_seed: &Vec<u8>) -> (r: Result<
        (),
        Error,
    >)
        requires
            old(self).wf(),
            random_seed@.len() <= 32,
        ensures
            final(self).wf(),
            !old(self).users().dom().contains(voter_username@) ==> r == Err::<(), Error>(
                Error::UnknownIdentity,
            ) && *final(self) == *old(self),
            old(self).users().dom().contains(voter_username@) ==> {
                let subject = old(self).users()[voter_username@];
                let pool0 = old(self).pool_entries(subject);
                if !has_positive(weights_of(pool0)) {
                    r == Err::<(), Error>(Error::EmptyPool) && *final(self) == *old(self)
                } else {
                    let drawn = drawn_ids(
                        pool0,
                        pad32(random_seed@),
                        draw_count(20, pool0.len()),
                    );
                    &&& r is Ok
                    &&& final(self).has_selection(subject)
                    &&& final(self).selection(subject) == old(self).selection(subject) + drawn
                    &&& (forall|j: int| 0 <= j < pool0.len() ==> #[trigger] pool0[j].1 > 0)
                        ==> drawn.len() == draw_count(20, pool0.len())
                    &&& ((forall|j: int| 0 <= j < pool0.len() ==> #[trigger] pool0[j].1 > 0)
                        && pool0.len() <= 20) ==> final(self).pool_entries(subject)
                        == Seq::<(u128, u128)>::empty()
                    &&& final(self).has_pool(subject)
                    &&& final(self).pool_entries(subject) == pool0.filter(
                        (|p: (u128, u128)| !drawn.contains(p.0)),
                    )
                    &&& (forall|s: u128|
                        s != subject ==> final(self).pool_entries(s) == old(self).pool_entries(s)
                            && final(self).selection(s) == old(self).selection(s))
                    &&& final(self).stake_records() == old(self).stake_records()
                    &&& final(self).balances() == old(self).balances()
                    &&& final(self).supply() == old(self).supply()
                    &&& final(self).users() == old(self).users()
                    &&& final(self).profiles() == old(self).profiles()
                    &&& final(self).stakes() == old(self).stakes()
                    &&& final(self).staked_flags() == old(self).staked_flags()
                }
            },
    {
        let subject = match self.get_user_id(voter_username) {
            Ok(id) => id,
            Err(e) => {
                return Err(e);
            },
        };
        let snapshot = match self.user_juror_stakes_clone.get(subject) {
            Some(p) => {
                proof {
                    assert(self.jury_pools().dom().contains(subject));
                }
                p.entries_vec()
            },
            None => {
                proof {
                    assert(weights_of(self.pool_entries(subject)) =~= Seq::<u128>::empty());
                }
                return Err(Error::EmptyPool);
            },
        };
        let ghost pool0 = old(self).pool_entries(subject);
        let ghost rec0 = self.stake_records()[subject].entries_seq();
        proof {
            assert(snapshot@ == pool0);
            lemma_sorted_implies_unique(pool0);
            lemma_sorted_implies_unique(rec0);
            assert forall|i: int|
                0 <= i < pool0.len() implies exists|j: int|
                0 <= j < rec0.len() && rec0[j].0 == #[trigger] pool0[i].0 && rec0[j].1
                    == pool0[i].1 by {
                lemma_kv_map_index(pool0, i);
                let k = pool0[i].0;
                assert(self.jury_pools()[subject].to_map().dom().contains(k));
                assert(Self::submap(
                    self.jury_pools()[subject].to_map(),
                    self.stake_records()[subject].to_map(),
                ));
                assert(self.stake_records()[subject].to_map().dom().contains(k));
                lemma_kv_map_domain(rec0, k);
                let j = choose|j: int| 0 <= j < rec0.len() && #[trigger] rec0[j].0 == k;
                lemma_kv_map_index(rec0, j);
            }
            lemma_sum_subset(pool0, rec0);
            assert(sum_vals(pool0) <= u128::MAX);
        }
        let (mut drawn, remaining) = match weighted_draw(&snapshot, random_seed, 20) {
            Ok(out) => out,
            Err(e) => {
                return Err(e);
            },
        };
        let ghost drawn_seq = drawn@;
        let ghost pred = |p: (u128, u128)| !drawn_seq.contains(p.0);
        proof {
            crate::maps::lemma_filter_sorted(pool0, pred);
            crate::maps::lemma_filter_subset(pool0, pred);
            broadcast use vstd::seq_lib::group_filter_ensures;

        }
        let new_pool = IdMap::from_sorted(remaining);
        self.user_juror_stakes_clone.insert(subject, new_pool);
        let mut sel = match self.selected_juror.remove(subject) {
            Some(v) => v,
            None => Vec::new(),
        };
        let ghost sel0 = sel@;
        proof {
            assert(sel0 == old(self).selection(subject));
        }
        sel.append(&mut drawn);
        self.selected_juror.insert(subject, sel);
        proof {
            let pre = old(self);
            assert(self.stake_records() == pre.stake_records());
            assert(self.accounts_ok()) by {
                assert(self.accounts == pre.accounts);
            }
            Self::lemma_registry_frame(pre, self);
            assert(self.jury_pools() =~= pre.jury_pools().insert(
                subject,
                self.jury_pools()[subject],
            ));
            assert(self.selections() =~= pre.selections().insert(
                subject,
                self.selections()[subject],
            ));
            assert(self.pool_entries(subject) == pool0.filter(pred));
            assert(self.selection(subject) == sel0 + drawn_seq);
            // the stake-side invariants
            assert forall|s: u128| #[trigger]
                self.stake_records().dom().contains(s) implies self.stake_records()[s].wf()
                && self.total_supply + sum_vals(self.stake_records()[s].entries_seq())
                <= u128::MAX by {
                assert(pre.stake_records().dom().contains(s));
            }
            assert forall|s: u128| #[trigger]
                self.jury_pools().dom().contains(s) implies self.jury_pools()[s].wf()
                && self.stake_records().dom().contains(s) && Self::submap(
                self.jury_pools()[s].to_map(),
                self.stake_records()[s].to_map(),
            ) by {
                if s == subject {
                    assert(self.jury_pools()[subject].entries_seq() == pool0.filter(pred));
                    assert forall|k: u128| #[trigger]
                        self.jury_pools()[s].to_map().dom().contains(k) implies self.stake_records()[
                        s
                    ].to_map().dom().contains(k) && self.stake_records()[s].to_map()[k]
                        == self.jury_pools()[s].to_map()[k] by {
                        let fp = pool0.filter(pred);
                        lemma_kv_map_domain(fp, k);
                        let i = choose|i: int| 0 <= i < fp.len() && #[trigger] fp[i].0 == k;
                        crate::maps::lemma_sorted_implies_unique(fp);
                        lemma_kv_map_index(fp, i);
                        let j = choose|j: int| 0 <= j < pool0.len() && pool0[j] == #[trigger] fp[i];
                        lemma_kv_map_index(pool0, j);
                        assert(pre.jury_pools()[subject].to_map().dom().contains(k));
                        assert(Self::submap(
                            pre.jury_pools()[subject].to_map(),
                            pre.stake_records()[subject].to_map(),
                        ));
                    }
                } else {
                    assert(pre.jury_pools().dom().contains(s));
                    assert(self.jury_pools()[s] == pre.jury_pools()[s]);
                    assert(Self::submap(
                        pre.jury_pools()[s].to_map(),
                        pre.stake_records()[s].to_map(),
                    ));
                }
            }
            assert forall|s: u128| #[trigger]
                self.selections().dom().contains(s) implies self.stake_records().dom().contains(
                s,
            ) && Self::selection_ok(
                self.selections()[s]@,
                self.stake_records()[s].to_map(),
                self.pool(s),
            ) by {
                if s == subject {
                    assert(pre.jury_pools().dom().contains(subject));
                    assert(pre.stake_records().dom().contains(subject));
                    let seln = self.selections()[s]@;
                    assert(seln == sel0 + drawn_seq);
                    let rec = self.stake_records()[s].to_map();
                    let newp = self.pool(s);
                    if pre.selections().dom().contains(subject) {
                        assert(Self::selection_ok(
                            sel0,
                            pre.stake_records()[subject].to_map(),
                            pre.pool(subject),
                        ));
                    } else {
                        assert(sel0 =~= Seq::<u128>::empty());
                    }
                    // every drawn id has a positive pool weight on record
                    assert forall|m: int|
                        0 <= m < drawn_seq.len() implies rec.dom().contains(
                        #[trigger] drawn_seq[m],
                    ) && rec[drawn_seq[m]] > 0 && pre.pool(subject).dom().contains(
                        drawn_seq[m],
                    ) by {
                        let i = choose|i: int|
                            0 <= i < pool0.len() && #[trigger] pool0[i].0 == drawn_seq[m]
                                && pool0[i].1 > 0;
                        lemma_kv_map_index(pool0, i);
                        assert(pre.pool(subject).dom().contains(drawn_seq[m]));
                        assert(Self::submap(
                            pre.jury_pools()[subject].to_map(),
                            pre.stake_records()[subject].to_map(),
                        ));
                    }
                    // nothing selected remains in the reduced pool
                    assert forall|m: int|
                        0 <= m < seln.len() implies !newp.dom().contains(
                        #[trigger] seln[m],
                    ) by {
                        let fp = pool0.filter(pred);
                        lemma_kv_map_domain(fp, seln[m]);
                        if newp.dom().contains(seln[m]) {
                            let i = choose|i: int|
                                0 <= i < fp.len() && #[trigger] fp[i].0 == seln[m];
                            let j = choose|j: int|
                                0 <= j < pool0.len() && pool0[j] == #[trigger] fp[i];
                            assert(pred(fp[i]));
                            assert(!drawn_seq.contains(seln[m]));
                            if m >= sel0.len() {
                                assert(seln[m] == drawn_seq[m - sel0.len()]);
                                assert(drawn_seq.contains(seln[m]));
                                assert(false);
                            } else {
                                assert(seln[m] == sel0[m]);
                                assert(!pre.pool(subject).dom().contains(sel0[m]));
                                lemma_kv_map_index(pool0, j);
                                assert(pre.pool(subject).dom().contains(fp[i].0));
                                assert(false);
                            }
                        }
                    }
                    // the combined selection is duplicate-free
                    assert forall|a: int, b: int|
                        0 <= a < b < seln.len() implies seln[a] != seln[b] by {
                        if a < sel0.len() && b >= sel0.len() {
                            assert(seln[a] == sel0[a]);
                            assert(seln[b] == drawn_seq[b - sel0.len()]);
                            let m = b - sel0.len();
                            let i = choose|i: int|
                                0 <= i < pool0.len() && #[trigger] pool0[i].0 == drawn_seq[m]
                                    && pool0[i].1 > 0;
                            lemma_kv_map_index(pool0, i);
                            assert(pre.pool(subject).dom().contains(drawn_seq[m]));
                            assert(!pre.pool(subject).dom().contains(sel0[a]));
                        } else if a >= sel0.len() {
                            assert(seln[a] == drawn_seq[a - sel0.len()]);
                            assert(seln[b] == drawn_seq[b - sel0.len()]);
                        } else {
                            assert(seln[a] == sel0[a] && seln[b] == sel0[b]);
                        }
                    }
                    // every selected juror keeps a positive stake on record
                    assert forall|m: int|
                        0 <= m < seln.len() implies rec.dom().contains(#[trigger] seln[m])
                        && rec[seln[m]] > 0 by {
                        if m < sel0.len() {
                            assert(seln[m] == sel0[m]);
                        } else {
                            assert(seln[m] == drawn_seq[m - sel0.len()]);
                        }
                    }
                } else {
                    assert(pre.selections().dom().contains(s));
                    assert(self.selections()[s] == pre.selections()[s]);
                    assert(self.pool(s) == pre.pool(s));
                    assert(Self::selection_ok(
                        pre.selections()[s]@,
                        pre.stake_records()[s].to_map(),
                        pre.pool(s),
                    ));
                }
            }
            // the unchanged-table facts of the contract
            assert forall|s: u128|
                s != subject implies final(self).pool_entries(s) == pre.pool_entries(s)
                && final(self).selection(s) == pre.selection(s) by {
            }
        }
        Ok(())
    }

    /// The jurors selected for a subject so far; fails until a first draw
    /// happened.
    pub fn get_selected_jurors(&self, voter_user_id: u128) -> (r: Result<&Vec<u128>, Error>)
        requires
            self.wf(),
        ensures
            match r {
                Ok(v) => self.has_selection(voter_user_id) && v@ == self.selection(voter_user_id),
                Err(e) => e == Error::NoSelection && !self.has_selection(voter_user_id),
            },
    {
        match self.selected_juror.get(voter_user_id) {
            Some(v) => Ok(v),
            None => Err(Error::NoSelection),
        }
    }

    /// Law: a subject's accepted total stake is the sum of its distinct
    /// stakers' amounts. The stake record never holds two entries for one
    /// staker, so `sum_vals` over its snapshot sums each staker once;
    /// `apply_jurors` states that an accepted stake raises this total by
    /// exactly the staked amount and that a second stake for the same pair
    /// is refused.
    pub proof fn lemma_stake_total_over_distinct_stakers(&self, subject: u128)
        requires
            self.wf(),
        ensures
            crate::maps::unique_keys(self.record_entries(subject)),
            forall|i: int|
                0 <= i < self.record_entries(subject).len() ==> self.record(
                    subject,
                ).dom().contains(#[trigger] self.record_entries(subject)[i].0) && self.record(
                    subject,
                )[self.record_entries(subject)[i].0] == self.record_entries(subject)[i].1,
    {
        let es = self.record_entries(subject);
        if self.has_record(subject) {
            lemma_sorted_implies_unique(es);
        }
        assert forall|i: int|
            0 <= i < es.len() implies self.record(subject).dom().contains(#[trigger] es[i].0)
            && self.record(subject)[es[i].0] == es[i].1 by {
            lemma_kv_map_index(es, i);
        }
    }

    /// Law: jurors are never drawn twice for a subject. The cumulative
    /// selection is duplicate-free, and a selected juror has left the
    /// subject's pool for good, so later draws cannot pick them again.
    pub proof fn lemma_selection_never_repeats(&self, subject: u128)
        requires
            self.wf(),
        ensures
            forall|a: int, b: int|
                0 <= a < b < self.selection(subject).len() ==> self.selection(subject)[a]
                    != self.selection(subject)[b],
            forall|m: int|
                0 <= m < self.selection(subject).len() ==> !self.pool(subject).dom().contains(
                    #[trigger] self.selection(subject)[m],
                ),
    {
        if self.has_selection(subject) {
            assert(Self::selection_ok(
                self.selections()[subject]@,
                self.stake_records()[subject].to_map(),
                self.pool(subject),
            ));
        }
    }
}

} // verus!
