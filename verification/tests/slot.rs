use simperby_repository::repository::Repository;
use simperby_repository::slot::Slot;
use simperby_repository::types::CommitHash;

#[test]
fn slot_check_out_and_in() {
    let mut slot = Slot::new(5u32);
    assert!(slot.is_checked_in());
    let handle = slot.check_out();
    assert_eq!(handle, 5);
    assert!(!slot.is_checked_in());
    assert_eq!(slot.check_in(handle + 1), None);
    assert!(slot.is_checked_in());
    assert_eq!(slot.check_in(9), Some(6));
    assert_eq!(slot.check_out(), 9);
}

#[test]
fn slot_checks_the_handle_back_in_after_a_failure() {
    let mut slot = Slot::new(vec![1u8, 2, 3]);
    let r: Result<u8, String> = slot.with_handle(|v| (Err("failed".to_string()), v));
    assert_eq!(r, Err("failed".to_string()));
    assert!(slot.is_checked_in());
    let n = slot.with_handle(|mut v| {
        v.push(4);
        (v.len(), v)
    });
    assert_eq!(n, 4);
    assert_eq!(slot.check_out(), vec![1, 2, 3, 4]);
}

#[test]
fn many_branches_through_one_slot() {
    let root = CommitHash { hash: [0; 20] };
    let mut slot = Slot::new(Repository::init(root, "genesis", &"main".to_string()));
    let n = 16;
    for i in 0..n {
        let r = slot.with_handle(|mut repo| {
            let r = repo.create_branch(format!("branch-{}", i), root);
            (r, repo)
        });
        assert!(r.is_ok());
        assert!(slot.is_checked_in());
    }
    let repo = slot.check_out();
    assert_eq!(repo.list_branches().unwrap().len(), n + 1);
    for i in 0..n {
        assert_eq!(repo.locate_branch(format!("branch-{}", i)).unwrap(), root);
    }
}

#[test]
fn concurrent_creates_all_arrive() {
    let root = CommitHash { hash: [0; 20] };
    let repo = Repository::init(root, "genesis", &"main".to_string());
    let shared = std::sync::Arc::new(tokio::sync::Mutex::new(Slot::new(repo)));
    let runtime = tokio::runtime::Builder::new_multi_thread()
        .worker_threads(4)
        .build()
        .unwrap();
    let n = 32;
    runtime.block_on(async {
        let mut calls = Vec::new();
        for i in 0..n {
            let shared = shared.clone();
            calls.push(tokio::spawn(async move {
                let mut lock = shared.lock().await;
                assert!(lock.is_checked_in());
                let mut repo = lock.check_out();
                let (result, repo) = tokio::task::spawn_blocking(move || {
                    let result = repo.create_branch(format!("branch-{}", i), root);
                    (result, repo)
                })
                .await
                .unwrap();
                assert_eq!(lock.check_in(repo).map(|_| ()), None);
                result
            }));
        }
        for call in calls {
            assert!(call.await.unwrap().is_ok());
        }
        let mut lock = shared.lock().await;
        let repo = lock.check_out();
        assert_eq!(repo.list_branches().unwrap().len(), n + 1);
        for i in 0..n {
            assert_eq!(repo.locate_branch(format!("branch-{}", i)).unwrap(), root);
        }
    });
}
