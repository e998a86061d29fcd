use transaction_pool::{
    Address, AlwaysReady, Comparison, Listener, NoopListener, NoopVerifier, PriceScoring,
    Readiness, Ready, Scoring, ScoringChange, ScoringChoice, UnverifiedTransaction,
    VerifiedTransaction, Verifier, H256, U256,
};

fn tx(sender: u64, nonce: u64, price: u64) -> VerifiedTransaction {
    VerifiedTransaction {
        hash: H256::from(sender * 1000 + nonce * 10 + price),
        nonce: U256::from(nonce),
        gas_price: U256::from(price),
        gas: U256::from(21),
        sender: Address::from(sender),
        insertion_id: 0,
    }
}

struct Recorder {
    seen: Vec<String>,
}

impl Listener for Recorder {
    fn rejected(&mut self, tx: &VerifiedTransaction) {
        self.seen.push(format!("rejected {:?}", tx.hash()));
    }
}

#[test]
fn accessors_read_the_fields() {
    let t = tx(7, 3, 5);
    assert_eq!(t.hash(), H256::from(7035));
    assert_eq!(t.sender(), Address::from(7));
    assert_eq!(t.mem_usage(), 3);
}

#[test]
fn defaults_are_zero() {
    assert_eq!(Address::default(), Address::from(0));
    assert_eq!(U256::default(), U256::from(0));
    assert_eq!(H256::default(), H256::from(0));
}

#[test]
fn readiness_from_bool() {
    assert_eq!(Readiness::from(true), Readiness::Ready);
    assert_eq!(Readiness::from(false), Readiness::Future);
}

#[test]
fn a_listener_overrides_one_hook() {
    let mut r = Recorder { seen: Vec::new() };
    let t = tx(1, 0, 5);
    r.added(&t, None);
    r.rejected(&t);
    r.dropped(&t);
    assert_eq!(r.seen, vec![format!("rejected {:?}", H256::from(1005))]);
    let mut n = NoopListener;
    n.added(&t, Some(&t));
    n.cancelled(&t);
    n.invalid(&t);
}

#[test]
fn always_ready_says_ready() {
    let t = tx(1, 0, 5);
    let mut a = AlwaysReady;
    assert_eq!(a.is_ready(&t), Readiness::Ready);
    assert_eq!(a.is_ready(&t), Readiness::Ready);
}

#[test]
fn noop_verifier_lets_nothing_pass() {
    assert_eq!(NoopVerifier.verify_transaction(UnverifiedTransaction), Err(()));
}

#[test]
fn price_scoring_ranks_and_decides() {
    let s = PriceScoring;
    let cheap = tx(1, 0, 3);
    let dear = tx(1, 0, 5);
    assert_eq!(s.compare(&dear, &cheap), Comparison::Less);
    assert_eq!(s.compare(&cheap, &dear), Comparison::Greater);
    assert_eq!(s.compare(&cheap, &cheap), Comparison::Equal);
    assert_eq!(s.decide(&dear, &cheap), ScoringChoice::RejectNew);
    assert_eq!(s.decide(&cheap, &dear), ScoringChoice::ReplaceOld);
    assert_eq!(s.decide(&cheap, &cheap), ScoringChoice::RejectNew);
    assert!(s.should_replace(&cheap, &dear));
    assert!(!s.should_replace(&dear, &cheap));
}

#[test]
fn price_scoring_fills_in_the_score() {
    let s = PriceScoring;
    let txs = vec![std::sync::Arc::new(tx(1, 0, 9)), std::sync::Arc::new(tx(2, 0, 4))];
    let mut scores = vec![U256::from(9), U256::default()];
    s.update_scores(&txs, &mut scores, ScoringChange::InsertedAt(1));
    assert_eq!(scores, vec![U256::from(9), U256::from(4)]);
    s.update_scores(&txs, &mut scores, ScoringChange::RemovedAt(2));
    assert_eq!(scores, vec![U256::from(9), U256::from(4)]);
    let mut stale = vec![U256::from(1), U256::from(4)];
    s.update_scores(&txs, &mut stale, ScoringChange::ReplacedAt(0));
    assert_eq!(stale, vec![U256::from(9), U256::from(4)]);
}

struct EveryOther {
    asked: u64,
}

impl Ready for EveryOther {
    type State = u64;

    fn is_ready(&mut self, _tx: &VerifiedTransaction) -> Readiness {
        self.asked += 1;
        Readiness::from(self.asked % 2 == 1)
    }
}

struct ByNonce;

impl Scoring for ByNonce {
    type Score = u64;

    fn spec_compare(&self, a: VerifiedTransaction, b: VerifiedTransaction) -> Comparison {
        self.compare(&a, &b)
    }
    fn spec_decide(&self, old: VerifiedTransaction, new: VerifiedTransaction) -> ScoringChoice {
        self.decide(&old, &new)
    }
    fn scored_when_empty(&self) {}
    fn compare_mirrors(&self, _a: VerifiedTransaction, _b: VerifiedTransaction) {}
    fn compare_chains(
        &self,
        _a: VerifiedTransaction,
        _b: VerifiedTransaction,
        _c: VerifiedTransaction,
    ) {
    }
    fn compare(&self, a: &VerifiedTransaction, b: &VerifiedTransaction) -> Comparison {
        if a.nonce < b.nonce {
            Comparison::Less
        } else if a.nonce > b.nonce {
            Comparison::Greater
        } else {
            Comparison::Equal
        }
    }
    fn decide(&self, _old: &VerifiedTransaction, _new: &VerifiedTransaction) -> ScoringChoice {
        ScoringChoice::RejectNew
    }
    fn update_scores(
        &self,
        _txs: &[transaction_pool::SharedTransaction],
        _scores: &mut [u64],
        _change: ScoringChange,
    ) {
    }
    fn should_replace(&self, _old: &VerifiedTransaction, _new: &VerifiedTransaction) -> bool {
        false
    }
}

#[test]
fn an_oracle_of_ones_own() {
    let mut o = EveryOther { asked: 0 };
    let t = tx(1, 0, 5);
    assert_eq!(o.is_ready(&t), Readiness::Ready);
    assert_eq!(o.is_ready(&t), Readiness::Future);
    assert_eq!(ByNonce.compare(&t, &t), Comparison::Equal);
}
