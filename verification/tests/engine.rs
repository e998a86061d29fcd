use std::sync::Arc;
use transaction_pool::{
    Address, AlwaysReady, Comparison, Error, Event, Listener, NonceTracker, NoopListener,
    NoopVerifier, Options, Pool, PriceScoring, Removal, Scoring, ScoringChange, ScoringChoice,
    SharedTransaction, UnverifiedTransaction, VerifiedTransaction, Verifier, H256, U256,
};

fn record(sender: u64, nonce: u64, price: u64, gas: u64) -> VerifiedTransaction {
    VerifiedTransaction {
        hash: H256::from(sender * 10_000 + nonce * 100 + price),
        nonce: U256::from(nonce),
        gas_price: U256::from(price),
        gas: U256::from(gas),
        sender: Address::from(sender),
        insertion_id: 999,
    }
}

fn tx(sender: u64, nonce: u64, price: u64) -> VerifiedTransaction {
    record(sender, nonce, price, 1)
}

fn limits(max_count: usize, max_cost: u64, max_per_sender: Option<usize>) -> Options {
    Options { max_count, max_cost, max_per_sender }
}

fn roomy() -> Options {
    limits(100, 1_000_000, None)
}

fn hashes(txs: &[SharedTransaction]) -> Vec<u64> {
    txs.iter().map(|t| t.hash.0).collect()
}

fn said(events: &[Event]) -> Vec<String> {
    events
        .iter()
        .map(|e| match e {
            Event::Added(t, None) => format!("added {}", t.hash.0),
            Event::Added(t, Some(old)) => format!("added {} for {}", t.hash.0, old.hash.0),
            Event::Rejected(t) => format!("rejected {}", t.hash.0),
            Event::Dropped(t) => format!("dropped {}", t.hash.0),
            Event::Invalid(t) => format!("invalid {}", t.hash.0),
            Event::Cancelled(t) => format!("cancelled {}", t.hash.0),
        })
        .collect()
}

fn strings(words: &[&str]) -> Vec<String> {
    words.iter().map(|w| w.to_string()).collect()
}

#[derive(Default)]
struct Recorder {
    heard: Vec<String>,
}

impl Listener for Recorder {
    fn added(&mut self, tx: &VerifiedTransaction, old: Option<&VerifiedTransaction>) {
        match old {
            Some(o) => self.heard.push(format!("added {} for {}", tx.hash.0, o.hash.0)),
            None => self.heard.push(format!("added {}", tx.hash.0)),
        }
    }
    fn rejected(&mut self, tx: &VerifiedTransaction) {
        self.heard.push(format!("rejected {}", tx.hash.0));
    }
    fn dropped(&mut self, tx: &VerifiedTransaction) {
        self.heard.push(format!("dropped {}", tx.hash.0));
    }
    fn invalid(&mut self, tx: &VerifiedTransaction) {
        self.heard.push(format!("invalid {}", tx.hash.0));
    }
    fn cancelled(&mut self, tx: &VerifiedTransaction) {
        self.heard.push(format!("cancelled {}", tx.hash.0));
    }
}

struct Passes(u64, u64, u64);

impl Verifier for Passes {
    type Error = String;

    fn verify_transaction(
        &self,
        _tx: UnverifiedTransaction,
    ) -> Result<VerifiedTransaction, String> {
        Ok(tx(self.0, self.1, self.2))
    }
}

struct Fails;

impl Verifier for Fails {
    type Error = String;

    fn verify_transaction(
        &self,
        _tx: UnverifiedTransaction,
    ) -> Result<VerifiedTransaction, String> {
        Err("bad signature".to_string())
    }
}

struct KeepsBoth;

impl Scoring for KeepsBoth {
    type Score = u64;

    fn spec_compare(&self, a: VerifiedTransaction, b: VerifiedTransaction) -> Comparison {
        self.compare(&a, &b)
    }
    fn spec_decide(&self, old: VerifiedTransaction, new: VerifiedTransaction) -> ScoringChoice {
        self.decide(&old, &new)
    }
    fn scored_when_empty(&self) {}
    fn compare_mirrors(&self, _a: VerifiedTransaction, _b: VerifiedTransaction) {}
    fn compare_chains(
        &self,
        _a: VerifiedTransaction,
        _b: VerifiedTransaction,
        _c: VerifiedTransaction,
    ) {
    }
    fn compare(&self, _a: &VerifiedTransaction, _b: &VerifiedTransaction) -> Comparison {
        Comparison::Equal
    }
    fn decide(&self, _old: &VerifiedTransaction, _new: &VerifiedTransaction) -> ScoringChoice {
        ScoringChoice::InsertNew
    }
    fn update_scores(&self, _txs: &[SharedTransaction], _scores: &mut [u64], _c: ScoringChange) {}
    fn should_replace(&self, _old: &VerifiedTransaction, _new: &VerifiedTransaction) -> bool {
        false
    }
}

#[test]
fn a_new_pool_is_empty() {
    let pool = Pool::new(PriceScoring, roomy());
    assert_eq!(pool.len(), 0);
    assert!(pool.is_empty());
    assert_eq!(pool.cost(), 0);
    assert_eq!(pool.counter(), 0);
    assert_eq!(pool.options(), roomy());
    assert!(pool.transactions().is_empty());
    assert!(pool.pending(&mut AlwaysReady).is_empty());
}

#[test]
fn size_is_inserts_less_removals_and_evictions() {
    let mut pool = Pool::new(PriceScoring, limits(3, 1_000_000, None));
    let mut entered = 0usize;
    let mut left = 0usize;
    let arrivals = [
        tx(1, 0, 10),
        tx(2, 0, 20),
        tx(1, 1, 5),
        tx(3, 0, 30),
        tx(1, 0, 12),
        tx(4, 0, 1),
        tx(2, 0, 2),
        tx(5, 0, 25),
    ];
    for arrival in arrivals {
        let (result, events) = pool.import(arrival);
        for event in &events {
            match event {
                Event::Added(_, None) if result.is_ok() => entered += 1,
                Event::Dropped(_) => left += 1,
                _ => {}
            }
        }
        assert_eq!(pool.len(), entered - left);
        assert!(pool.len() <= 3);
    }
    let (gone, _) = pool.withdraw(&H256::from(30_030), Removal::Cancelled);
    assert!(gone.is_ok());
    left += 1;
    assert_eq!(pool.len(), entered - left);
    let (absent, events) = pool.withdraw(&H256::from(30_030), Removal::Cancelled);
    assert_eq!(absent, Err(Error::NotFound));
    assert!(events.is_empty());
    assert_eq!(pool.len(), entered - left);
    assert_eq!(entered, 5);
    assert_eq!(left, 3);
    assert_eq!(pool.len(), 2);
}

#[test]
fn the_order_is_sorted_and_scores_stand_beside() {
    let mut pool = Pool::new(PriceScoring, roomy());
    for (sender, nonce, price) in [(1, 0, 4), (2, 0, 9), (3, 0, 1), (1, 1, 7), (4, 0, 9), (2, 1, 4)]
    {
        assert!(pool.import(tx(sender, nonce, price)).0.is_ok());
    }
    let all = pool.transactions();
    let prices: Vec<u64> = all.iter().map(|t| t.gas_price.0).collect();
    assert_eq!(prices, vec![9, 9, 7, 4, 4, 1]);
    let ids: Vec<u64> = all.iter().map(|t| t.insertion_id).collect();
    assert_eq!(ids, vec![1, 4, 3, 0, 5, 2]);
    for i in 0..pool.len() {
        assert_eq!(*pool.score(i), pool.get(i).gas_price);
        assert!(Arc::ptr_eq(pool.get(i), &all[i]));
    }
    for pair in all.windows(2) {
        assert_ne!(PriceScoring.compare(&pair[0], &pair[1]), Comparison::Greater);
    }
}

#[test]
fn equals_stand_oldest_first() {
    let mut pool = Pool::new(PriceScoring, roomy());
    pool.import(tx(3, 0, 5));
    pool.import(tx(1, 0, 5));
    pool.import(tx(2, 0, 5));
    assert_eq!(hashes(&pool.transactions()), vec![30_005, 10_005, 20_005]);
}

#[test]
fn a_replacement_keeps_the_size() {
    let mut pool = Pool::new(PriceScoring, roomy());
    pool.import(tx(1, 0, 5));
    pool.import(tx(2, 0, 8));
    let (result, events) = pool.import(tx(1, 0, 9));
    let handle = result.unwrap();
    assert_eq!(handle.gas_price, U256::from(9));
    assert_eq!(handle.insertion_id, 2);
    assert_eq!(said(&events), strings(&["added 10009 for 10005"]));
    assert_eq!(pool.len(), 2);
    assert_eq!(hashes(&pool.transactions()), vec![10_009, 20_008]);
    assert_eq!(hashes(&pool.sender_queue(&Address::from(1))), vec![10_009]);
    assert_eq!(*pool.score(0), U256::from(9));
    assert_eq!(*pool.score(1), U256::from(8));
}

#[test]
fn a_replacement_that_stays_in_place_keeps_its_index() {
    let mut pool = Pool::new(PriceScoring, roomy());
    pool.import(tx(1, 0, 9));
    pool.import(tx(2, 0, 5));
    pool.import(tx(3, 0, 1));
    let (result, _) = pool.import(tx(2, 0, 6));
    assert!(result.is_ok());
    assert_eq!(hashes(&pool.transactions()), vec![10_009, 20_006, 30_001]);
    assert_eq!(*pool.score(1), U256::from(6));
}

#[test]
fn a_lost_conflict_leaves_the_pool_as_it_is() {
    let mut pool = Pool::new(PriceScoring, roomy());
    pool.import(tx(1, 0, 5));
    pool.import(tx(2, 0, 8));
    let before = hashes(&pool.transactions());
    let (result, events) = pool.import(tx(1, 0, 5));
    assert_eq!(result, Err(Error::NotCompetitive));
    assert_eq!(said(&events), strings(&["rejected 10005"]));
    assert_eq!(hashes(&pool.transactions()), before);
    assert_eq!(pool.cost(), 2);
}

#[test]
fn a_policy_that_keeps_both_is_overruled() {
    let mut pool = Pool::new(KeepsBoth, roomy());
    assert!(pool.import(tx(1, 0, 5)).0.is_ok());
    let (result, events) = pool.import(tx(1, 0, 6));
    assert_eq!(result, Err(Error::NotCompetitive));
    assert_eq!(said(&events), strings(&["rejected 10006"]));
    assert_eq!(hashes(&pool.transactions()), vec![10_005]);
}

#[test]
fn a_costlier_replacement_can_evict_others() {
    let mut pool = Pool::new(PriceScoring, limits(10, 2, None));
    pool.import(record(1, 0, 5, 1));
    pool.import(record(2, 0, 1, 1));
    let (result, events) = pool.import(record(1, 0, 6, 2));
    assert!(result.is_ok());
    assert_eq!(said(&events), strings(&["added 10006 for 10005", "dropped 20001"]));
    assert_eq!(hashes(&pool.transactions()), vec![10_006]);
    assert_eq!(pool.cost(), 2);
}

#[test]
fn a_costlier_replacement_can_itself_be_the_worst() {
    let mut pool = Pool::new(PriceScoring, limits(10, 1, None));
    pool.import(record(1, 0, 5, 1));
    let (result, events) = pool.import(record(1, 0, 6, 2));
    assert_eq!(result, Err(Error::PoolFull));
    assert_eq!(said(&events), strings(&["added 10006 for 10005", "rejected 10006"]));
    assert!(pool.is_empty());
    assert_eq!(pool.cost(), 0);
    assert!(pool.sender_queue(&Address::from(1)).is_empty());
}

#[test]
fn insertion_numbers_rise_whoever_sends() {
    let mut pool = Pool::new(PriceScoring, roomy());
    let a = pool.import(tx(1, 0, 5)).0.unwrap();
    let lost = pool.import(tx(1, 0, 4)).0;
    let b = pool.import(tx(2, 7, 5)).0.unwrap();
    let c = pool.import(tx(1, 0, 6)).0.unwrap();
    assert_eq!(lost, Err(Error::NotCompetitive));
    assert_eq!((a.insertion_id, b.insertion_id, c.insertion_id), (0, 2, 3));
    assert_eq!(pool.counter(), 4);
    let mut ids: Vec<u64> = pool.transactions().iter().map(|t| t.insertion_id).collect();
    ids.sort();
    ids.dedup();
    assert_eq!(ids, vec![2, 3]);
}

#[test]
fn a_newcomer_that_ranks_last_in_a_full_pool_is_turned_away() {
    let mut pool = Pool::new(PriceScoring, limits(2, 1_000_000, None));
    pool.import(tx(1, 0, 5));
    pool.import(tx(2, 0, 7));
    let (result, events) = pool.import(tx(3, 0, 5));
    assert_eq!(result, Err(Error::PoolFull));
    assert_eq!(said(&events), strings(&["added 30005", "rejected 30005"]));
    assert_eq!(hashes(&pool.transactions()), vec![20_007, 10_005]);
    assert_eq!(pool.sender_count(&Address::from(3)), 0);
    assert_eq!(pool.counter(), 3);
}

#[test]
fn the_cost_limit_evicts_until_the_rest_fits() {
    let mut pool = Pool::new(PriceScoring, limits(10, 10, None));
    pool.import(record(1, 0, 9, 3));
    pool.import(record(2, 0, 7, 3));
    pool.import(record(3, 0, 5, 3));
    assert_eq!(pool.cost(), 9);
    let (result, events) = pool.import(record(4, 0, 8, 6));
    assert!(result.is_ok());
    assert_eq!(said(&events), strings(&["added 40008", "dropped 30005", "dropped 20007"]));
    assert_eq!(hashes(&pool.transactions()), vec![10_009, 40_008]);
    assert_eq!(pool.cost(), 9);
}

#[test]
fn a_newcomer_too_costly_for_the_pool_takes_the_worse_ones_down_with_it() {
    let mut pool = Pool::new(PriceScoring, limits(10, 10, None));
    pool.import(record(1, 0, 9, 3));
    pool.import(record(2, 0, 5, 3));
    let (result, events) = pool.import(record(3, 0, 7, 11));
    assert_eq!(result, Err(Error::PoolFull));
    assert_eq!(said(&events), strings(&["added 30007", "dropped 20005", "rejected 30007"]));
    assert_eq!(hashes(&pool.transactions()), vec![10_009]);
    assert_eq!(pool.cost(), 3);
}

#[test]
fn a_pool_of_no_capacity_takes_nothing() {
    let mut pool = Pool::new(PriceScoring, limits(0, 1_000_000, None));
    let (result, events) = pool.import(tx(1, 0, 5));
    assert_eq!(result, Err(Error::PoolFull));
    assert_eq!(said(&events), strings(&["added 10005", "rejected 10005"]));
    assert!(pool.is_empty());
}

#[test]
fn the_cap_of_a_sender_turns_its_next_away() {
    let mut pool = Pool::new(PriceScoring, limits(10, 1_000_000, Some(2)));
    assert!(pool.import(tx(1, 0, 5)).0.is_ok());
    assert!(pool.import(tx(1, 1, 5)).0.is_ok());
    let (result, events) = pool.import(tx(1, 2, 50));
    assert_eq!(result, Err(Error::PoolFull));
    assert_eq!(said(&events), strings(&["rejected 10250"]));
    assert_eq!(pool.len(), 2);
    assert!(pool.import(tx(2, 0, 1)).0.is_ok());
    let (result, events) = pool.import(tx(1, 1, 6));
    assert!(result.is_ok());
    assert_eq!(said(&events), strings(&["added 10106 for 10105"]));
    assert_eq!(pool.sender_count(&Address::from(1)), 2);
}

#[test]
fn a_sender_queue_is_by_nonce() {
    let mut pool = Pool::new(PriceScoring, roomy());
    pool.import(tx(1, 5, 1));
    pool.import(tx(1, 2, 9));
    pool.import(tx(2, 0, 4));
    pool.import(tx(1, 3, 5));
    let queue = pool.sender_queue(&Address::from(1));
    let nonces: Vec<u64> = queue.iter().map(|t| t.nonce.0).collect();
    assert_eq!(nonces, vec![2, 3, 5]);
    assert_eq!(pool.sender_count(&Address::from(1)), 3);
    assert_eq!(pool.sender_count(&Address::from(2)), 1);
    assert_eq!(pool.sender_count(&Address::from(9)), 0);
    assert!(pool.sender_queue(&Address::from(9)).is_empty());
    let found = pool.find(&Address::from(1), &U256::from(3)).unwrap();
    assert_eq!(found.hash, H256::from(10_305));
    assert!(pool.find(&Address::from(1), &U256::from(4)).is_none());
    assert!(pool.find(&Address::from(7), &U256::from(3)).is_none());
    pool.withdraw(&H256::from(10_209), Removal::Invalid);
    let queue = pool.sender_queue(&Address::from(1));
    let nonces: Vec<u64> = queue.iter().map(|t| t.nonce.0).collect();
    assert_eq!(nonces, vec![3, 5]);
}

#[test]
fn handles_share_one_record_and_outlive_the_pool() {
    let mut pool = Pool::new(PriceScoring, roomy());
    let held = pool.import(tx(1, 0, 5)).0.unwrap();
    let found = pool.find(&Address::from(1), &U256::from(0)).unwrap();
    assert!(Arc::ptr_eq(&held, &found));
    assert!(Arc::ptr_eq(&held, &pool.pending(&mut AlwaysReady)[0]));
    assert!(Arc::ptr_eq(&held, &pool.sender_queue(&Address::from(1))[0]));
    assert!(Arc::ptr_eq(&held, &pool.transactions()[0]));
    let (gone, events) = pool.withdraw(&H256::from(10_005), Removal::Invalid);
    assert!(Arc::ptr_eq(&held, &gone.unwrap()));
    assert_eq!(said(&events), strings(&["invalid 10005"]));
    drop(pool);
    assert_eq!(held.gas_price, U256::from(5));
    assert_eq!(held.insertion_id, 0);
}

#[test]
fn withdraw_takes_the_first_with_the_hash() {
    let mut pool = Pool::new(PriceScoring, roomy());
    let mut twin = tx(2, 0, 9);
    twin.hash = H256::from(10_005);
    pool.import(tx(1, 0, 5));
    pool.import(twin);
    let (gone, events) = pool.withdraw(&H256::from(10_005), Removal::Cancelled);
    assert_eq!(gone.unwrap().sender, Address::from(2));
    assert_eq!(said(&events), strings(&["cancelled 10005"]));
    assert_eq!(pool.len(), 1);
    assert_eq!(pool.cost(), 1);
}

#[test]
fn always_ready_yields_the_whole_pool_in_order() {
    let mut pool = Pool::new(PriceScoring, roomy());
    for (sender, nonce, price) in [(1, 1, 4), (2, 0, 9), (3, 5, 1), (1, 0, 7)] {
        pool.import(tx(sender, nonce, price));
    }
    let picked = pool.pending(&mut AlwaysReady);
    assert_eq!(hashes(&picked), hashes(&pool.transactions()));
    assert_eq!(hashes(&picked), vec![20_009, 10_007, 10_104, 30_501]);
}

#[test]
fn a_nonce_tracker_yields_runs_without_gaps() {
    let mut pool = Pool::new(PriceScoring, roomy());
    // sender 1: nonces 0, 1, 2 ranked in that order; sender 2: nonce 1 only;
    // sender 3: nonces 5 and 6, expected from 5; sender 4: nonce 1 ranked before nonce 0
    for (sender, nonce, price) in [
        (1, 0, 90),
        (1, 1, 80),
        (1, 2, 70),
        (2, 1, 95),
        (3, 5, 60),
        (3, 6, 50),
        (4, 1, 40),
        (4, 0, 30),
    ] {
        assert!(pool.import(tx(sender, nonce, price)).0.is_ok());
    }
    let mut oracle = NonceTracker::new();
    oracle.expect(Address::from(3), U256::from(5));
    let picked = pool.pending(&mut oracle);
    let slots: Vec<(u64, u64)> = picked.iter().map(|t| (t.sender.0, t.nonce.0)).collect();
    assert_eq!(slots, vec![(1, 0), (1, 1), (1, 2), (3, 5), (3, 6), (4, 0)]);
    assert_eq!(oracle.next_nonce(&Address::from(1)), 3);
    assert_eq!(oracle.next_nonce(&Address::from(2)), 0);
    assert_eq!(oracle.next_nonce(&Address::from(3)), 7);
    assert_eq!(oracle.next_nonce(&Address::from(4)), 1);
}

#[test]
fn a_stale_transaction_stalls_its_sender() {
    let mut pool = Pool::new(PriceScoring, roomy());
    pool.import(tx(1, 3, 90));
    pool.import(tx(1, 5, 80));
    pool.import(tx(2, 5, 70));
    pool.import(tx(2, 3, 60));
    let mut oracle = NonceTracker::new();
    oracle.expect(Address::from(1), U256::from(5));
    oracle.expect(Address::from(2), U256::from(5));
    let picked = pool.pending(&mut oracle);
    let slots: Vec<(u64, u64)> = picked.iter().map(|t| (t.sender.0, t.nonce.0)).collect();
    assert_eq!(slots, vec![(2, 5)]);
    assert_eq!(oracle.next_nonce(&Address::from(1)), 5);
    assert_eq!(oracle.next_nonce(&Address::from(2)), 6);
}

#[test]
fn the_highest_nonce_has_a_successor_to_expect() {
    let mut pool = Pool::new(PriceScoring, roomy());
    pool.import(tx(1, u64::MAX, 0));
    let mut oracle = NonceTracker::new();
    oracle.expect(Address::from(1), U256::from(u64::MAX));
    assert_eq!(pool.pending(&mut oracle).len(), 1);
    assert_eq!(oracle.next_nonce(&Address::from(1)), u64::MAX as u128 + 1);
}

#[test]
fn insert_verifies_first() {
    let mut pool = Pool::new(PriceScoring, roomy());
    let mut listener = Recorder::default();
    let failed = pool.insert(&Fails, &mut listener, UnverifiedTransaction);
    assert_eq!(failed, Err(Error::VerificationFailed("bad signature".to_string())));
    assert!(listener.heard.is_empty());
    assert_eq!(pool.counter(), 0);
    let failed = pool.insert(&NoopVerifier, &mut NoopListener, UnverifiedTransaction);
    assert_eq!(failed, Err(Error::VerificationFailed(())));
    let accepted = pool.insert(&Passes(1, 0, 5), &mut listener, UnverifiedTransaction).unwrap();
    assert_eq!(accepted.insertion_id, 0);
    assert_eq!(accepted.hash, H256::from(10_005));
    let lost = pool.insert(&Passes(1, 0, 3), &mut listener, UnverifiedTransaction);
    assert_eq!(lost, Err(Error::NotCompetitive));
    let won = pool.insert(&Passes(1, 0, 8), &mut listener, UnverifiedTransaction);
    assert!(won.is_ok());
    assert_eq!(
        listener.heard,
        strings(&["added 10005", "rejected 10003", "added 10008 for 10005"])
    );
    assert_eq!(pool.len(), 1);
}

#[test]
fn insert_reports_a_full_pool() {
    let mut pool = Pool::new(PriceScoring, limits(1, 1_000_000, None));
    let mut listener = Recorder::default();
    assert!(pool.insert(&Passes(1, 0, 5), &mut listener, UnverifiedTransaction).is_ok());
    let full = pool.insert(&Passes(2, 0, 4), &mut listener, UnverifiedTransaction);
    assert_eq!(full, Err(Error::PoolFull));
    let better = pool.insert(&Passes(3, 0, 6), &mut listener, UnverifiedTransaction);
    assert!(better.is_ok());
    assert_eq!(
        listener.heard,
        strings(&["added 10005", "added 20004", "rejected 20004", "added 30006", "dropped 10005"])
    );
}

#[test]
fn candidates_come_one_by_one() {
    let mut pool = Pool::new(PriceScoring, roomy());
    for (sender, nonce, price) in [(1, 0, 90), (1, 1, 80), (2, 1, 95), (3, 0, 60), (1, 2, 50)] {
        pool.import(tx(sender, nonce, price));
    }
    let mut pass = pool.candidates(NonceTracker::new());
    let first = pass.next().unwrap();
    assert_eq!((first.sender.0, first.nonce.0), (1, 0));
    let second = pass.next().unwrap();
    assert_eq!((second.sender.0, second.nonce.0), (1, 1));
    let oracle = pass.into_oracle();
    // the pass stopped after the second candidate: the oracle was not asked further
    assert_eq!(oracle.next_nonce(&Address::from(1)), 2);
    assert_eq!(oracle.next_nonce(&Address::from(3)), 0);
    let mut pass = pool.candidates(NonceTracker::new());
    let all = pass.collect();
    let slots: Vec<(u64, u64)> = all.iter().map(|t| (t.sender.0, t.nonce.0)).collect();
    assert_eq!(slots, vec![(1, 0), (1, 1), (3, 0), (1, 2)]);
    assert!(pass.next().is_none());
    assert!(pass.next().is_none());
    assert_eq!(hashes(&all), hashes(&pool.pending(&mut NonceTracker::new())));
}

#[test]
fn candidates_of_an_empty_pool_end_at_once() {
    let pool = Pool::new(PriceScoring, roomy());
    let mut pass = pool.candidates(AlwaysReady);
    assert!(pass.next().is_none());
    assert!(pass.collect().is_empty());
}

#[test]
fn scores_follow_every_change() {
    let mut pool = Pool::new(PriceScoring, limits(3, 1_000_000, None));
    pool.import(tx(1, 0, 4));
    pool.import(tx(2, 0, 9));
    pool.import(tx(3, 0, 6));
    pool.import(tx(4, 0, 7));
    pool.import(tx(2, 0, 10));
    pool.import(tx(3, 0, 12));
    pool.withdraw(&H256::from(40_007), Removal::Cancelled);
    pool.import(tx(5, 0, 11));
    assert_eq!(hashes(&pool.transactions()), vec![30_012, 50_011, 20_010]);
    for i in 0..pool.len() {
        assert_eq!(*pool.score(i), pool.get(i).gas_price);
    }
}
