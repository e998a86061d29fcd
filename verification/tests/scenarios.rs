use transaction_pool::{
    Address, AlwaysReady, Error, Event, Listener, Options, Pool, PriceScoring, Removal,
    SharedTransaction, VerifiedTransaction, H256, U256,
};

fn tx(sender: u64, nonce: u64, price: u64) -> VerifiedTransaction {
    VerifiedTransaction {
        hash: H256::from(sender * 10_000 + nonce * 100 + price),
        nonce: U256::from(nonce),
        gas_price: U256::from(price),
        gas: U256::from(1),
        sender: Address::from(sender),
        insertion_id: 0,
    }
}

fn roomy() -> Options {
    Options { max_count: 100, max_cost: 1_000_000, max_per_sender: None }
}

fn slots(txs: &[SharedTransaction]) -> Vec<(u64, u64, u64)> {
    txs.iter()
        .map(|t| {
            let VerifiedTransaction { sender, nonce, gas_price, .. } = &**t;
            (sender.0, nonce.0, gas_price.0)
        })
        .collect()
}

fn said(events: &[Event]) -> Vec<String> {
    events
        .iter()
        .map(|e| match e {
            Event::Added(t, None) => format!("added {}", t.hash.0),
            Event::Added(t, Some(old)) => format!("added {} for {}", t.hash.0, old.hash.0),
            Event::Rejected(t) => format!("rejected {}", t.hash.0),
            Event::Dropped(t) => format!("dropped {}", t.hash.0),
            Event::Invalid(t) => format!("invalid {}", t.hash.0),
            Event::Cancelled(t) => format!("cancelled {}", t.hash.0),
        })
        .collect()
}

#[derive(Default)]
struct Recorder {
    heard: Vec<String>,
}

impl Listener for Recorder {
    fn added(&mut self, tx: &VerifiedTransaction, old: Option<&VerifiedTransaction>) {
        match old {
            Some(o) => self.heard.push(format!("added {} for {}", tx.hash.0, o.hash.0)),
            None => self.heard.push(format!("added {}", tx.hash.0)),
        }
    }
    fn rejected(&mut self, tx: &VerifiedTransaction) {
        self.heard.push(format!("rejected {}", tx.hash.0));
    }
    fn dropped(&mut self, tx: &VerifiedTransaction) {
        self.heard.push(format!("dropped {}", tx.hash.0));
    }
    fn invalid(&mut self, tx: &VerifiedTransaction) {
        self.heard.push(format!("invalid {}", tx.hash.0));
    }
    fn cancelled(&mut self, tx: &VerifiedTransaction) {
        self.heard.push(format!("cancelled {}", tx.hash.0));
    }
}

#[test]
fn pending_is_best_first_across_senders() {
    let mut pool = Pool::new(PriceScoring, roomy());
    assert!(pool.import(tx(1, 0, 10)).0.is_ok());
    assert!(pool.import(tx(1, 1, 5)).0.is_ok());
    assert!(pool.import(tx(2, 0, 8)).0.is_ok());
    let picked = pool.pending(&mut AlwaysReady);
    assert_eq!(slots(&picked), vec![(1, 0, 10), (2, 0, 8), (1, 1, 5)]);
}

#[test]
fn a_cheaper_newcomer_loses_the_slot() {
    let mut pool = Pool::new(PriceScoring, roomy());
    let (first, _) = pool.import(tx(1, 0, 5));
    let first = first.unwrap();
    let (second, events) = pool.import(tx(1, 0, 3));
    assert_eq!(second, Err(Error::NotCompetitive));
    assert_eq!(said(&events), vec!["rejected 10003".to_string()]);
    let picked = pool.pending(&mut AlwaysReady);
    assert_eq!(slots(&picked), vec![(1, 0, 5)]);
    assert!(std::sync::Arc::ptr_eq(&picked[0], &first));
    assert_eq!(pool.len(), 1);
}

#[test]
fn a_better_newcomer_evicts_the_worst() {
    let options = Options { max_count: 2, max_cost: 1_000_000, max_per_sender: None };
    let mut pool = Pool::new(PriceScoring, options);
    assert!(pool.import(tx(1, 0, 2)).0.is_ok());
    assert!(pool.import(tx(2, 0, 7)).0.is_ok());
    let (third, events) = pool.import(tx(3, 0, 5));
    assert!(third.is_ok());
    assert_eq!(said(&events), vec!["added 30005".to_string(), "dropped 10002".to_string()]);
    let picked = pool.pending(&mut AlwaysReady);
    assert_eq!(slots(&picked), vec![(2, 0, 7), (3, 0, 5)]);
    assert_eq!(pool.len(), 2);
}

#[test]
fn the_listener_hears_what_import_reports() {
    let options = Options { max_count: 2, max_cost: 1_000_000, max_per_sender: None };
    let mut pool = Pool::new(PriceScoring, options);
    let mut listener = Recorder::default();
    pool.import(tx(1, 0, 2));
    pool.import(tx(2, 0, 7));
    let gone = pool.remove(&H256::from(10002), Removal::Cancelled, &mut listener);
    assert_eq!(gone.unwrap().hash, H256::from(10002));
    let absent = pool.remove(&H256::from(10002), Removal::Invalid, &mut listener);
    assert_eq!(absent, Err(Error::NotFound));
    let gone = pool.remove(&H256::from(20007), Removal::Invalid, &mut listener);
    assert!(gone.is_ok());
    assert_eq!(listener.heard, vec!["cancelled 10002".to_string(), "invalid 20007".to_string()]);
    assert!(pool.is_empty());
}
