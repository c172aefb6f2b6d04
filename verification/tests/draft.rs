use ft_lockup::contract::Contract;
use ft_lockup::draft::{Draft, DraftGroupIndex, DraftIndex};
use ft_lockup::error::Error;
use ft_lockup::lockup::{Lockup, LockupIndex};
use ft_lockup::schedule::TimestampSec;
use ft_lockup::view::{DraftGroupView, DraftView, LockupView};
use std::cell::{Cell, RefCell};

const GENESIS_TIMESTAMP_SEC: TimestampSec = 1_600_000_000;
const TOKEN_DECIMALS: u32 = 18;

fn d(value: u128, decimals: u32) -> u128 {
    value * 10u128.pow(decimals)
}

struct User {
    account_id: String,
}

impl User {
    fn new(name: &str) -> User {
        User { account_id: String::from(name) }
    }

    fn valid_account_id(&self) -> String {
        self.account_id.clone()
    }
}

struct Users {
    alice: User,
    bob: User,
}

impl Users {
    fn init(_e: &Env) -> Users {
        Users { alice: User::new("alice"), bob: User::new("bob") }
    }
}

struct Env {
    contract: RefCell<Contract>,
    owner: User,
    now: Cell<TimestampSec>,
    registered: RefCell<Vec<String>>,
    balances: RefCell<Vec<(String, u128)>>,
}

impl Env {
    fn init(_config: Option<()>) -> Env {
        let owner = User::new("owner");
        let token = User::new("token");
        let contract = Contract::new(token.account_id.clone(), vec![owner.account_id.clone()]);
        Env {
            contract: RefCell::new(contract),
            owner,
            now: Cell::new(0),
            registered: RefCell::new(Vec::new()),
            balances: RefCell::new(Vec::new()),
        }
    }

    fn set_time_sec(&self, t: TimestampSec) {
        self.now.set(t);
    }

    fn ft_storage_deposit(&self, account_id: &str) {
        let mut reg = self.registered.borrow_mut();
        if !reg.iter().any(|a| a == account_id) {
            reg.push(String::from(account_id));
        }
    }

    fn is_registered(&self, account_id: &str) -> bool {
        self.registered.borrow().iter().any(|a| a == account_id)
    }

    fn credit(&self, account_id: &str, amount: u128) {
        let mut b = self.balances.borrow_mut();
        for entry in b.iter_mut() {
            if entry.0 == account_id {
                entry.1 += amount;
                return;
            }
        }
        b.push((String::from(account_id), amount));
    }

    fn ft_balance_of(&self, user: &User) -> u128 {
        self.balances
            .borrow()
            .iter()
            .find(|(a, _)| *a == user.account_id)
            .map(|(_, v)| *v)
            .unwrap_or(0)
    }

    fn ft_transfer(&self, _from: &User, amount: u128, to: &User) {
        self.credit(&to.account_id, amount);
    }

    fn claim(&self, user: &User) -> u128 {
        let (claims, total) = {
            let mut c = self.contract.borrow_mut();
            c.claim(&user.account_id, self.now.get()).unwrap()
        };
        if total == 0 {
            return 0;
        }
        let success = self.is_registered(&user.account_id);
        let out = {
            let mut c = self.contract.borrow_mut();
            c.after_ft_transfer(&user.account_id, claims, success).unwrap()
        };
        if success {
            self.credit(&user.account_id, out);
        }
        out
    }

    fn create_draft_group(&self, caller: &User) -> Result<DraftGroupIndex, Error> {
        self.contract.borrow_mut().create_draft_group(&caller.account_id)
    }

    fn get_draft_group(&self, index: DraftGroupIndex) -> Option<DraftGroupView> {
        self.contract.borrow().get_draft_group(index)
    }

    fn get_draft_groups_paged(
        &self,
        from: Option<DraftGroupIndex>,
        to: Option<DraftGroupIndex>,
    ) -> Vec<(DraftGroupIndex, DraftGroupView)> {
        self.contract.borrow().get_draft_groups_paged(from, to)
    }

    fn create_draft(&self, caller: &User, draft: &Draft) -> Result<DraftIndex, Error> {
        self.contract.borrow_mut().create_draft(&caller.account_id, draft.clone())
    }

    fn create_drafts(&self, caller: &User, drafts: &Vec<Draft>) -> Result<Vec<DraftIndex>, Error> {
        self.contract.borrow_mut().create_drafts(&caller.account_id, drafts.clone())
    }

    fn fund_draft_group(
        &self,
        sender: &User,
        amount: u128,
        draft_group_id: DraftGroupIndex,
    ) -> Result<u128, Error> {
        self.contract
            .borrow_mut()
            .fund_draft_group(&sender.account_id, amount, draft_group_id)
            .map(|_| amount)
    }

    fn convert_draft(&self, _caller: &User, draft_id: DraftIndex) -> Result<LockupIndex, Error> {
        self.contract.borrow_mut().convert_draft(draft_id)
    }

    fn convert_drafts(
        &self,
        _caller: &User,
        draft_ids: &Vec<DraftIndex>,
    ) -> Result<Vec<LockupIndex>, Error> {
        self.contract.borrow_mut().convert_drafts(draft_ids.clone())
    }

    fn get_draft(&self, index: DraftIndex) -> Option<DraftView> {
        self.contract.borrow().get_draft(index, self.now.get())
    }

    fn get_drafts(&self, indices: Vec<DraftIndex>) -> Vec<(DraftIndex, DraftView)> {
        self.contract.borrow().get_drafts(&indices, self.now.get())
    }

    fn get_lockup(&self, index: LockupIndex) -> LockupView {
        self.contract.borrow().get_lockup(index, self.now.get()).unwrap()
    }
}

#[test]
fn test_create_draft_group() {
    let e = Env::init(None);
    let users = Users::init(&e);
    e.set_time_sec(GENESIS_TIMESTAMP_SEC);

    // create by not authorized account
    let res = e.create_draft_group(&users.alice);
    assert!(!res.is_ok(), "only deposit whitelist can create group");

    let res = e.create_draft_group(&e.owner);
    assert!(res.is_ok());
    let index: DraftGroupIndex = res.unwrap();
    assert_eq!(index, 0);

    let res = e.create_draft_group(&e.owner);
    assert!(res.is_ok());
    let index: DraftGroupIndex = res.unwrap();
    assert_eq!(index, 1);
}

#[test]
fn draft_test_view_draft_groups() {
    let e = Env::init(None);
    e.set_time_sec(GENESIS_TIMESTAMP_SEC);

    e.create_draft_group(&e.owner).unwrap();
    e.create_draft_group(&e.owner).unwrap();
    e.create_draft_group(&e.owner).unwrap();

    let result = e.get_draft_group(2);
    assert!(result.is_some());
    assert!(result.unwrap().draft_indices.is_empty());
    let result = e.get_draft_group(3);
    assert!(result.is_none());

    let result = e.get_draft_groups_paged(None, None);
    assert_eq!(result.len(), 3);
    assert_eq!(result[0].0, 0);
    assert_eq!(result[1].0, 1);
    assert_eq!(result[2].0, 2);

    let result = e.get_draft_groups_paged(Some(1), Some(2));
    assert_eq!(result.len(), 1);
    assert_eq!(result[0].0, 1);
    assert!(result[0].1.draft_indices.is_empty());
}

#[test]
fn test_create_draft() {
    let e = Env::init(None);
    let users = Users::init(&e);
    e.set_time_sec(GENESIS_TIMESTAMP_SEC);

    let amount = d(60000, TOKEN_DECIMALS);
    let lockup = Lockup::new_unlocked(users.alice.account_id.clone(), amount);
    let draft_group_id = 0;
    let draft = Draft { draft_group_id, lockup };

    let res = e.create_draft(&e.owner, &draft);
    assert!(!res.is_ok());
    assert!(res.unwrap_err().message().contains("draft group not found"));

    e.create_draft_group(&e.owner).unwrap();

    let res = e.create_draft(&users.alice, &draft);
    assert!(!res.is_ok());
    assert!(res.unwrap_err().message().contains("Not in deposit whitelist"));

    // create draft 0
    let res = e.create_draft(&e.owner, &draft);
    assert!(res.is_ok());
    let res: DraftIndex = res.unwrap();
    assert_eq!(res, 0);

    // create draft 1
    let res = e.create_draft(&e.owner, &draft);
    assert!(res.is_ok());
    let res: DraftIndex = res.unwrap();
    assert_eq!(res, 1);

    // check draft group
    let res = e.get_draft_group(0).unwrap();
    let mut draft_indices = res.draft_indices;
    draft_indices.sort();
    assert_eq!(draft_indices, vec![0, 1]);
    assert_eq!(res.total_amount, amount * 2);
}

#[test]
fn test_create_drafts_batch() {
    let e = Env::init(None);
    let users = Users::init(&e);
    e.set_time_sec(GENESIS_TIMESTAMP_SEC);

    let amount = d(60000, TOKEN_DECIMALS);
    let drafts: Vec<Draft> = vec![&users.alice, &users.bob]
        .iter()
        .map(|user| {
            let lockup = Lockup::new_unlocked(user.account_id.clone(), amount);
            let draft_group_id = 0;
            Draft { draft_group_id, lockup }
        })
        .collect();

    e.create_draft_group(&e.owner).unwrap();

    let res = e.create_drafts(&e.owner, &drafts);
    assert!(res.is_ok());
    let ids: Vec<DraftIndex> = res.unwrap();
    assert_eq!(ids, vec![0, 1]);

    // check draft group
    let res = e.get_draft_group(0).unwrap();
    let mut draft_indices = res.draft_indices;
    draft_indices.sort();
    assert_eq!(draft_indices, vec![0, 1]);
    assert_eq!(res.total_amount, amount * 2);

    let draft = e.get_draft(0).unwrap();
    assert_eq!(draft.lockup.account_id, users.alice.valid_account_id());
    let draft = e.get_draft(1).unwrap();
    assert_eq!(draft.lockup.account_id, users.bob.valid_account_id());
}

#[test]
fn draft_test_fund_draft_group() {
    let e = Env::init(None);
    let users = Users::init(&e);
    e.set_time_sec(GENESIS_TIMESTAMP_SEC);

    let amount = d(60000, TOKEN_DECIMALS);
    let lockup = Lockup::new_unlocked(users.alice.account_id.clone(), amount);
    let draft_group_id = 0;
    let draft = Draft { draft_group_id, lockup };

    e.create_draft_group(&e.owner).unwrap();

    // create draft 0
    let res = e.create_draft(&e.owner, &draft);
    assert!(res.is_ok());
    // create draft 1
    let res = e.create_draft(&e.owner, &draft);
    assert!(res.is_ok());

    e.ft_storage_deposit(&users.alice.account_id);
    e.ft_transfer(&e.owner, amount * 2, &users.alice);

    // fund with not authorized account: refunded
    let res = e.fund_draft_group(&users.alice, amount * 2, 0);
    assert!(res.is_err());

    // fund with wrong amount: refunded
    let res = e.fund_draft_group(&e.owner, amount, 0);
    assert!(res.is_err());

    // fund draft group
    let res = e.fund_draft_group(&e.owner, amount * 2, 0);
    let balance = res.unwrap();
    assert_eq!(balance, amount * 2);

    let res = e.get_draft_group(0).unwrap();
    assert_eq!(res.funded, true, "expected draft group to be funded");

    // fund again, should fail with a refund
    let res = e.fund_draft_group(&e.owner, amount * 2, 0);
    assert!(res.is_err());
    assert!(res.unwrap_err().message().contains("group already funded"));

    // add draft after funding
    let res = e.create_draft(&e.owner, &draft);
    assert!(!res.is_ok());
    assert!(res.unwrap_err().message().contains("group already funded"));
}

#[test]
fn draft_test_convert_draft() {
    let e = Env::init(None);
    let users = Users::init(&e);
    e.set_time_sec(GENESIS_TIMESTAMP_SEC);

    let amount = d(60000, TOKEN_DECIMALS);
    let lockup = Lockup::new_unlocked(users.alice.account_id.clone(), amount);
    let draft_group_id = 0;
    let draft = Draft { draft_group_id, lockup };

    e.create_draft_group(&e.owner).unwrap();

    // create draft 0
    let res = e.create_draft(&e.owner, &draft);
    assert!(res.is_ok());

    // try convert before fund
    let res = e.convert_draft(&users.bob, 0);
    assert!(!res.is_ok());
    assert!(res.unwrap_err().message().contains("not funded group"));

    // fund draft group
    let res = e.fund_draft_group(&e.owner, amount, 0);
    let balance = res.unwrap();
    assert_eq!(balance, amount);

    // convert by anonymous
    let res = e.convert_draft(&users.bob, 0);
    assert!(res.is_ok());
    let res: DraftIndex = res.unwrap();
    assert_eq!(res, 0);

    let res = e.get_draft(0);
    assert!(res.is_none(), "expected converted draft to be deleted");

    let res = e.get_draft_group(0).unwrap();
    assert!(res.draft_indices.is_empty(), "draft indices must be removed after convert");
    assert_eq!(res.total_amount, 0, "draft amount must be subtracted from group");

    let lockup = e.get_lockup(0);
    assert_eq!(lockup.account_id, users.alice.valid_account_id());
    assert_eq!(lockup.total_balance, amount);

    // try to convert again
    let res = e.convert_draft(&users.bob, 0);
    assert!(!res.is_ok());
    assert!(res.unwrap_err().message().contains("draft not found"));
}

#[test]
fn test_convert_drafts_batch() {
    let e = Env::init(None);
    let users = Users::init(&e);
    e.set_time_sec(GENESIS_TIMESTAMP_SEC);

    let amount = d(60000, TOKEN_DECIMALS);
    let drafts: Vec<Draft> = vec![&users.alice, &users.bob]
        .iter()
        .map(|user| {
            let lockup = Lockup::new_unlocked(user.account_id.clone(), amount);
            let draft_group_id = 0;
            Draft { draft_group_id, lockup }
        })
        .collect();

    e.create_draft_group(&e.owner).unwrap();

    let res = e.create_drafts(&e.owner, &drafts);
    assert!(res.is_ok());

    // fund draft group
    let res = e.fund_draft_group(&e.owner, amount * 2, 0);
    let balance = res.unwrap();
    assert_eq!(balance, amount * 2);

    // convert by anonymous
    let res = e.convert_drafts(&users.bob, &vec![0, 1]);
    println!("{:#?}", res);
    assert!(res.is_ok());
    let res: Vec<LockupIndex> = res.unwrap();
    assert_eq!(res, vec![0, 1]);

    let lockup = e.get_lockup(0);
    assert_eq!(lockup.account_id, users.alice.valid_account_id());

    let lockup = e.get_lockup(1);
    assert_eq!(lockup.account_id, users.bob.valid_account_id());
}

#[test]
fn draft_test_view_drafts() {
    let e = Env::init(None);
    let users = Users::init(&e);
    e.set_time_sec(GENESIS_TIMESTAMP_SEC);

    let amount = d(60000, TOKEN_DECIMALS);
    let lockup = Lockup::new_unlocked(users.alice.account_id.clone(), amount);
    let draft_group_id = 0;
    let draft = Draft { draft_group_id, lockup };

    e.create_draft_group(&e.owner).unwrap();
    e.create_draft(&e.owner, &draft).unwrap();
    e.create_draft(&e.owner, &draft).unwrap();
    e.create_draft(&e.owner, &draft).unwrap();

    // fund draft group
    let res = e.fund_draft_group(&e.owner, amount * 3, 0);
    let balance = res.unwrap();
    assert_eq!(balance, amount * 3);
    let res = e.convert_draft(&users.bob, 0);
    assert!(res.is_ok());

    let res = e.get_drafts(vec![2, 0]);
    assert_eq!(res.len(), 1);
    assert_eq!(res[0].0, 2);
    let draft = &res[0].1;
    assert_eq!(draft.draft_group_id, 0);
    assert_eq!(draft.lockup.total_balance, amount);
}

#[test]
fn test_create_via_draft_batches_and_claim() {
    let e = Env::init(None);
    let users = Users::init(&e);
    e.set_time_sec(GENESIS_TIMESTAMP_SEC);

    let amount = d(60000, TOKEN_DECIMALS);
    let lockup = Lockup::new_unlocked(users.alice.account_id.clone(), amount);
    let draft_group_id = 0;
    let draft = Draft { draft_group_id, lockup };

    e.create_draft_group(&e.owner).unwrap();
    e.create_drafts(&e.owner, &vec![draft]).unwrap();

    // fund draft group
    let res = e.fund_draft_group(&e.owner, amount, 0);
    let balance = res.unwrap();
    assert_eq!(balance, amount);
    let res = e.convert_drafts(&users.bob, &vec![0]);
    assert!(res.is_ok());

    e.ft_storage_deposit(&users.alice.account_id);
    let res = e.claim(&users.alice);
    assert_eq!(res, amount);
    let balance = e.ft_balance_of(&users.alice);
    assert_eq!(balance, amount);
}
