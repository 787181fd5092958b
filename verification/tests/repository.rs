use simperby_repository::error::{Error, ErrorKind};
use simperby_repository::graph::CommitContent;
use simperby_repository::repository::Repository;
use simperby_repository::semantic::{
    decode_message, encode_message, Diff, Hash256, ReservedState, SemanticCommit,
};
use simperby_repository::types::CommitHash;

fn h(n: u8) -> CommitHash {
    CommitHash { hash: [n; 20] }
}

fn fresh() -> Repository {
    Repository::init(h(0), "genesis", &"main".to_string())
}

fn commit(repo: &mut Repository, n: u8) -> CommitHash {
    repo.create_commit(
        h(n),
        format!("commit {}", n),
        "alice".to_string(),
        "alice@example.org".to_string(),
        1_700_000_000 + n as i64,
        None,
    )
    .unwrap()
}

fn plain(message: &str) -> CommitContent {
    CommitContent::Plain {
        message: message.to_string(),
        author_name: "bob".to_string(),
        author_email: "bob@example.org".to_string(),
        timestamp: 0,
        diff: None,
    }
}

fn reserved() -> ReservedState {
    ReservedState {
        members: vec!["alice".to_string(), "bob".to_string()],
        consensus_leader_order: vec!["bob".to_string(), "alice".to_string()],
        version: "0.1.0".to_string(),
    }
}

#[test]
fn init_head_is_initial_commit_and_branch_tip() {
    let repo = fresh();
    assert_eq!(repo.get_head().unwrap(), h(0));
    assert_eq!(repo.get_initial_commit().unwrap(), h(0));
    assert_eq!(repo.locate_branch("main".to_string()).unwrap(), h(0));
    assert_eq!(repo.list_branches().unwrap(), vec!["main".to_string()]);
    assert!(repo.list_tags().unwrap().is_empty());
    assert!(repo.list_remotes().unwrap().is_empty());
    assert!(repo.list_ancestors(h(0), None).unwrap().is_empty());
}

#[test]
fn hash_comparison_is_bytewise() {
    let mut other = [7u8; 20];
    assert!(h(7).same(&CommitHash { hash: other }));
    other[19] = 8;
    assert!(!h(7).same(&CommitHash { hash: other }));
}

#[test]
fn branch_create_locate_move_delete() {
    let mut repo = fresh();
    let c1 = commit(&mut repo, 1);
    let c2 = commit(&mut repo, 2);
    repo.create_branch("dev".to_string(), c1).unwrap();
    assert_eq!(repo.locate_branch("dev".to_string()).unwrap(), c1);
    repo.create_branch("other".to_string(), c2).unwrap();
    assert_eq!(repo.locate_branch("dev".to_string()).unwrap(), c1);
    repo.move_branch("dev".to_string(), c2).unwrap();
    assert_eq!(repo.locate_branch("dev".to_string()).unwrap(), c2);
    assert_eq!(repo.locate_branch("other".to_string()).unwrap(), c2);
    repo.delete_branch("dev".to_string()).unwrap();
    assert_eq!(
        repo.locate_branch("dev".to_string()),
        Err(Error::NotFound("dev".to_string()))
    );
    assert_eq!(
        repo.list_branches().unwrap(),
        vec!["main".to_string(), "other".to_string()]
    );
}

#[test]
fn branch_errors() {
    let mut repo = fresh();
    let e = repo.create_branch("main".to_string(), h(0)).unwrap_err();
    assert_eq!(e.kind(), ErrorKind::InvalidRepository);
    let e = repo.create_branch("dev".to_string(), h(9)).unwrap_err();
    assert_eq!(e.kind(), ErrorKind::NotFound);
    assert_eq!(
        repo.move_branch("dev".to_string(), h(0)),
        Err(Error::NotFound("dev".to_string()))
    );
    let e = repo.move_branch("main".to_string(), h(9)).unwrap_err();
    assert_eq!(e.kind(), ErrorKind::NotFound);
    assert_eq!(
        repo.delete_branch("dev".to_string()),
        Err(Error::NotFound("dev".to_string()))
    );
    assert_eq!(repo.list_branches().unwrap(), vec!["main".to_string()]);
}

#[test]
fn get_branches_lists_the_names_on_a_commit() {
    let mut repo = fresh();
    let c1 = commit(&mut repo, 1);
    repo.create_branch("a".to_string(), h(0)).unwrap();
    repo.create_branch("b".to_string(), c1).unwrap();
    repo.create_branch("c".to_string(), h(0)).unwrap();
    assert_eq!(
        repo.get_branches(h(0)).unwrap(),
        vec!["a".to_string(), "c".to_string()]
    );
    assert_eq!(
        repo.get_branches(c1).unwrap(),
        vec!["main".to_string(), "b".to_string()]
    );
    assert!(repo.get_branches(h(9)).unwrap().is_empty());
}

#[test]
fn tag_create_locate_remove() {
    let mut repo = fresh();
    let c1 = commit(&mut repo, 1);
    repo.create_tag("v1".to_string(), c1).unwrap();
    repo.create_tag("v0".to_string(), h(0)).unwrap();
    assert_eq!(repo.locate_tag("v1".to_string()).unwrap(), c1);
    assert_eq!(repo.locate_tag("v0".to_string()).unwrap(), h(0));
    assert_eq!(repo.get_tag(c1).unwrap(), vec!["v1".to_string()]);
    assert_eq!(
        repo.list_tags().unwrap(),
        vec!["v1".to_string(), "v0".to_string()]
    );
    let e = repo.create_tag("v1".to_string(), h(0)).unwrap_err();
    assert_eq!(e.kind(), ErrorKind::InvalidRepository);
    let e = repo.create_tag("v2".to_string(), h(9)).unwrap_err();
    assert_eq!(e.kind(), ErrorKind::NotFound);
    repo.remove_tag("v1".to_string()).unwrap();
    assert_eq!(
        repo.locate_tag("v1".to_string()),
        Err(Error::NotFound("v1".to_string()))
    );
    assert_eq!(
        repo.remove_tag("v1".to_string()),
        Err(Error::NotFound("v1".to_string()))
    );
    assert_eq!(repo.locate_tag("v0".to_string()).unwrap(), h(0));
}

#[test]
fn create_commit_appends_to_head() {
    let mut repo = fresh();
    let before = repo.get_head().unwrap();
    let c1 = commit(&mut repo, 1);
    assert_eq!(c1, h(1));
    assert_eq!(repo.get_head().unwrap(), c1);
    assert_eq!(repo.locate_branch("main".to_string()).unwrap(), c1);
    assert_eq!(repo.list_ancestors(c1, None).unwrap(), vec![before]);
    let c2 = commit(&mut repo, 2);
    let c3 = commit(&mut repo, 3);
    assert_eq!(repo.list_ancestors(c3, None).unwrap(), vec![c2, c1, h(0)]);
    assert_eq!(repo.list_ancestors(c3, Some(2)).unwrap(), vec![c2, c1]);
    assert_eq!(repo.list_ancestors(c3, Some(0)).unwrap(), vec![]);
    assert_eq!(
        repo.list_ancestors(c3, Some(10)).unwrap(),
        vec![c2, c1, h(0)]
    );
    assert_eq!(repo.list_children(c1).unwrap(), vec![c2]);
    assert_eq!(repo.get_initial_commit().unwrap(), h(0));
}

#[test]
fn create_commit_refuses_a_known_hash() {
    let mut repo = fresh();
    commit(&mut repo, 1);
    let e = repo
        .create_commit(
            h(1),
            "again".to_string(),
            "a".to_string(),
            "a@b".to_string(),
            0,
            Some("patch".to_string()),
        )
        .unwrap_err();
    assert_eq!(e.kind(), ErrorKind::InvalidRepository);
    assert_eq!(repo.get_head().unwrap(), h(1));
}

#[test]
fn unknown_commits_are_not_found() {
    let repo = fresh();
    assert_eq!(
        repo.list_ancestors(h(9), None).unwrap_err().kind(),
        ErrorKind::NotFound
    );
    assert_eq!(
        repo.list_children(h(9)).unwrap_err().kind(),
        ErrorKind::NotFound
    );
    assert_eq!(
        repo.find_merge_base(h(0), h(9)).unwrap_err().kind(),
        ErrorKind::NotFound
    );
    assert_eq!(
        repo.query_commit_path(h(9), h(0)).unwrap_err().kind(),
        ErrorKind::NotFound
    );
    assert_eq!(
        repo.read_semantic_commit(h(9)).unwrap_err().kind(),
        ErrorKind::NotFound
    );
    assert!(repo.find_commit(&h(9)).is_none());
    assert_eq!(repo.find_commit(&h(0)), Some(0));
}

#[test]
fn detached_commits_move_no_branch() {
    let mut repo = fresh();
    let c1 = commit(&mut repo, 1);
    repo.checkout_detach(h(0)).unwrap();
    assert_eq!(repo.get_head().unwrap(), h(0));
    let c2 = commit(&mut repo, 2);
    assert_eq!(repo.get_head().unwrap(), c2);
    assert_eq!(repo.locate_branch("main".to_string()).unwrap(), c1);
    assert_eq!(repo.list_children(h(0)).unwrap(), vec![c1, c2]);
    assert_eq!(
        repo.checkout_detach(h(9)).unwrap_err().kind(),
        ErrorKind::NotFound
    );
}

#[test]
fn checkout_switches_the_branch() {
    let mut repo = fresh();
    let c1 = commit(&mut repo, 1);
    repo.create_branch("dev".to_string(), h(0)).unwrap();
    repo.checkout("dev".to_string()).unwrap();
    assert_eq!(repo.get_head().unwrap(), h(0));
    let c2 = commit(&mut repo, 2);
    assert_eq!(repo.locate_branch("dev".to_string()).unwrap(), c2);
    assert_eq!(repo.locate_branch("main".to_string()).unwrap(), c1);
    assert_eq!(
        repo.checkout("gone".to_string()),
        Err(Error::NotFound("gone".to_string()))
    );
    assert_eq!(repo.get_head().unwrap(), c2);
    repo.move_branch("dev".to_string(), c1).unwrap();
    assert_eq!(repo.get_head().unwrap(), c1);
    repo.delete_branch("dev".to_string()).unwrap();
    assert_eq!(repo.get_head().unwrap(), c1);
    let c3 = commit(&mut repo, 3);
    assert_eq!(repo.get_head().unwrap(), c3);
    assert_eq!(repo.locate_branch("main".to_string()).unwrap(), c1);
}

#[test]
fn semantic_commit_round_trip() {
    let mut repo = fresh();
    let sc = SemanticCommit {
        title: "update members".to_string(),
        body: "adds bob".to_string(),
        diff: Diff::Reserved(Box::new(reserved())),
        author: "alice".to_string(),
        timestamp: 42,
    };
    let hash = repo.create_semantic_commit(h(1), sc.clone()).unwrap();
    assert_eq!(hash, h(1));
    assert_eq!(repo.get_head().unwrap(), h(1));
    let back = repo.read_semantic_commit(hash).unwrap();
    assert_eq!(back.title, sc.title);
    assert_eq!(back.body, sc.body);
    assert_eq!(back.diff, sc.diff);
    assert_eq!(*back, sc);
    let empty = SemanticCommit {
        title: "note".to_string(),
        body: String::new(),
        diff: Diff::Empty,
        author: "bob".to_string(),
        timestamp: 43,
    };
    repo.create_semantic_commit(h(2), empty.clone()).unwrap();
    assert_eq!(*repo.read_semantic_commit(h(2)).unwrap(), empty);
    assert_eq!(repo.list_ancestors(h(2), None).unwrap(), vec![h(1), h(0)]);
}

#[test]
fn semantic_commit_refuses_other_diffs() {
    let mut repo = fresh();
    let digest = Hash256 { hash: [3; 32] };
    for diff in [
        Diff::NonReserved(digest),
        Diff::General(Box::new(reserved()), digest),
    ] {
        let sc = SemanticCommit {
            title: "t".to_string(),
            body: "b".to_string(),
            diff,
            author: "alice".to_string(),
            timestamp: 1,
        };
        let e = repo.create_semantic_commit(h(1), sc).unwrap_err();
        assert_eq!(e.kind(), ErrorKind::InvalidRepository);
    }
    assert_eq!(repo.get_head().unwrap(), h(0));
    assert!(Diff::Empty.is_committable());
    assert!(Diff::Reserved(Box::new(reserved())).is_committable());
    assert!(!Diff::NonReserved(digest).is_committable());
}

#[test]
fn reading_a_plain_commit_as_semantic_fails() {
    let mut repo = fresh();
    let c1 = commit(&mut repo, 1);
    assert_eq!(
        repo.read_semantic_commit(c1).unwrap_err().kind(),
        ErrorKind::InvalidRepository
    );
    assert_eq!(
        repo.read_semantic_commit(h(0)).unwrap_err().kind(),
        ErrorKind::InvalidRepository
    );
}

#[test]
fn commit_path_between_ancestor_and_descendant() {
    let mut repo = fresh();
    let c1 = commit(&mut repo, 1);
    let c2 = commit(&mut repo, 2);
    let c3 = commit(&mut repo, 3);
    assert_eq!(
        repo.query_commit_path(h(0), c3).unwrap(),
        vec![c1, c2, c3]
    );
    assert_eq!(repo.query_commit_path(c1, c3).unwrap(), vec![c2, c3]);
    assert_eq!(repo.query_commit_path(c2, c3).unwrap(), vec![c3]);
    assert_eq!(
        repo.query_commit_path(c3, c3).unwrap_err().kind(),
        ErrorKind::InvalidRepository
    );
    assert_eq!(
        repo.query_commit_path(c3, c1).unwrap_err().kind(),
        ErrorKind::InvalidRepository
    );
}

#[test]
fn commit_path_needs_the_merge_base() {
    let mut repo = fresh();
    let c1 = commit(&mut repo, 1);
    let c2 = commit(&mut repo, 2);
    repo.checkout_detach(c1).unwrap();
    let c3 = commit(&mut repo, 3);
    assert_eq!(repo.find_merge_base(c2, c3).unwrap(), c1);
    assert_eq!(
        repo.query_commit_path(c2, c3).unwrap_err().kind(),
        ErrorKind::InvalidRepository
    );
    assert_eq!(repo.query_commit_path(c1, c3).unwrap(), vec![c3]);
}

#[test]
fn merge_base_is_symmetric() {
    let mut repo = fresh();
    let c1 = commit(&mut repo, 1);
    let c2 = commit(&mut repo, 2);
    let c3 = commit(&mut repo, 3);
    repo.checkout_detach(c1).unwrap();
    let c4 = commit(&mut repo, 4);
    let c5 = commit(&mut repo, 5);
    let all = [h(0), c1, c2, c3, c4, c5];
    for a in all {
        for b in all {
            assert_eq!(
                repo.find_merge_base(a, b).unwrap(),
                repo.find_merge_base(b, a).unwrap()
            );
        }
    }
    assert_eq!(repo.find_merge_base(c3, c5).unwrap(), c1);
    assert_eq!(repo.find_merge_base(c3, c2).unwrap(), c2);
    assert_eq!(repo.find_merge_base(c4, c4).unwrap(), c4);
    assert_eq!(repo.find_merge_base(h(0), c5).unwrap(), h(0));
}

#[test]
fn merge_commits_are_refused_by_walks() {
    let mut repo = fresh();
    let c1 = commit(&mut repo, 1);
    repo.checkout_detach(h(0)).unwrap();
    let c2 = commit(&mut repo, 2);
    repo.insert_commit(h(3), vec![c1, c2], plain("merge")).unwrap();
    repo.insert_commit(h(4), vec![h(3)], plain("after")).unwrap();
    assert_eq!(repo.get_head().unwrap(), c2);
    assert_eq!(
        repo.list_ancestors(h(4), Some(1)).unwrap_err().kind(),
        ErrorKind::InvalidRepository
    );
    assert_eq!(repo.list_ancestors(h(4), Some(0)).unwrap(), vec![]);
    assert_eq!(
        repo.list_ancestors(h(3), Some(0)).unwrap_err().kind(),
        ErrorKind::InvalidRepository
    );
    repo.insert_commit(h(5), vec![h(4)], plain("later")).unwrap();
    assert_eq!(repo.list_ancestors(h(5), Some(1)).unwrap(), vec![h(4)]);
    assert_eq!(
        repo.list_ancestors(h(5), Some(2)).unwrap_err().kind(),
        ErrorKind::InvalidRepository
    );
    assert_eq!(
        repo.list_ancestors(h(4), None).unwrap_err().kind(),
        ErrorKind::InvalidRepository
    );
    assert_eq!(
        repo.list_ancestors(h(3), None).unwrap_err().kind(),
        ErrorKind::InvalidRepository
    );
    assert_eq!(
        repo.query_commit_path(c1, h(4)).unwrap_err().kind(),
        ErrorKind::InvalidRepository
    );
    assert_eq!(repo.query_commit_path(h(3), h(4)).unwrap(), vec![h(4)]);
    assert_eq!(repo.find_merge_base(h(4), c2).unwrap(), c2);
    assert_eq!(repo.find_merge_base(c2, h(4)).unwrap(), c2);
    assert_eq!(repo.find_merge_base(h(5), c1).unwrap(), c1);
    assert_eq!(repo.find_merge_base(c1, c2).unwrap(), h(0));
    assert_eq!(repo.find_merge_base(h(3), h(3)).unwrap(), h(3));
    assert_eq!(repo.find_merge_base(h(4), h(3)).unwrap(), h(3));
    assert_eq!(repo.list_children(c1).unwrap(), vec![h(3)]);
    assert_eq!(repo.list_children(c2).unwrap(), vec![h(3)]);
}

#[test]
fn insert_commit_errors() {
    let mut repo = fresh();
    assert_eq!(
        repo.insert_commit(h(0), vec![h(0)], plain("x"))
            .unwrap_err()
            .kind(),
        ErrorKind::InvalidRepository
    );
    assert_eq!(
        repo.insert_commit(h(1), vec![], plain("x")).unwrap_err().kind(),
        ErrorKind::InvalidRepository
    );
    assert_eq!(
        repo.insert_commit(h(1), vec![h(0), h(7)], plain("x"))
            .unwrap_err()
            .kind(),
        ErrorKind::NotFound
    );
    assert!(repo.find_commit(&h(1)).is_none());
}

#[test]
fn remotes_add_list_remove() {
    let mut repo = fresh();
    repo.add_remote("origin".to_string(), "https://example.org/a.git".to_string())
        .unwrap();
    repo.add_remote("peer".to_string(), "https://example.org/b.git".to_string())
        .unwrap();
    assert_eq!(
        repo.list_remotes().unwrap(),
        vec![
            ("origin".to_string(), "https://example.org/a.git".to_string()),
            ("peer".to_string(), "https://example.org/b.git".to_string()),
        ]
    );
    let e = repo
        .add_remote("origin".to_string(), "https://example.org/c.git".to_string())
        .unwrap_err();
    assert_eq!(e.kind(), ErrorKind::InvalidRepository);
    repo.remove_remote("origin".to_string()).unwrap();
    assert_eq!(
        repo.remove_remote("origin".to_string()),
        Err(Error::NotFound("origin".to_string()))
    );
    assert_eq!(
        repo.list_remotes().unwrap(),
        vec![("peer".to_string(), "https://example.org/b.git".to_string())]
    );
}

#[test]
fn error_kinds_and_messages() {
    let cases = [
        (Error::Git2Error("a".to_string()), ErrorKind::Backend, "a"),
        (Error::NotFound("b".to_string()), ErrorKind::NotFound, "b"),
        (
            Error::InvalidRepository("c".to_string()),
            ErrorKind::InvalidRepository,
            "c",
        ),
        (Error::Unknown("d".to_string()), ErrorKind::Unknown, "d"),
    ];
    for (e, kind, message) in cases {
        assert_eq!(e.kind(), kind);
        assert_eq!(e.message(), message);
    }
}

#[test]
fn remote_tracking_branches() {
    let mut repo = fresh();
    let c1 = commit(&mut repo, 1);
    repo.add_remote("origin".to_string(), "https://example.org/a.git".to_string())
        .unwrap();
    repo.track_remote_branch("origin".to_string(), "main".to_string(), h(0))
        .unwrap();
    repo.track_remote_branch("origin".to_string(), "dev".to_string(), c1)
        .unwrap();
    assert_eq!(
        repo.locate_remote_tracking_branch("origin".to_string(), "main".to_string())
            .unwrap(),
        h(0)
    );
    repo.track_remote_branch("origin".to_string(), "main".to_string(), c1)
        .unwrap();
    assert_eq!(
        repo.list_remote_tracking_branches().unwrap(),
        vec![
            ("origin".to_string(), "main".to_string(), c1),
            ("origin".to_string(), "dev".to_string(), c1),
        ]
    );
    assert_eq!(
        repo.locate_remote_tracking_branch("origin".to_string(), "gone".to_string()),
        Err(Error::NotFound("gone".to_string()))
    );
    assert_eq!(
        repo.locate_remote_tracking_branch("peer".to_string(), "main".to_string()),
        Err(Error::NotFound("main".to_string()))
    );
    assert_eq!(
        repo.track_remote_branch("peer".to_string(), "main".to_string(), c1),
        Err(Error::NotFound("peer".to_string()))
    );
    assert_eq!(
        repo.track_remote_branch("origin".to_string(), "main".to_string(), h(9))
            .unwrap_err()
            .kind(),
        ErrorKind::NotFound
    );
}

#[test]
fn garbage_collection_drops_unreachable_commits() {
    let mut repo = fresh();
    let c1 = commit(&mut repo, 1);
    repo.checkout_detach(h(0)).unwrap();
    let c2 = commit(&mut repo, 2);
    let c3 = commit(&mut repo, 3);
    repo.checkout_detach(c1).unwrap();
    let c4 = commit(&mut repo, 4);
    let c5 = commit(&mut repo, 5);
    repo.create_tag("keep".to_string(), c4).unwrap();
    repo.checkout("main".to_string()).unwrap();
    repo.run_garbage_collection().unwrap();
    assert!(repo.find_commit(&c2).is_none());
    assert!(repo.find_commit(&c3).is_none());
    assert!(repo.find_commit(&c5).is_none());
    assert_eq!(repo.find_commit(&h(0)), Some(0));
    assert_eq!(repo.find_commit(&c1), Some(1));
    assert_eq!(repo.find_commit(&c4), Some(2));
    assert_eq!(repo.get_head().unwrap(), c1);
    assert_eq!(repo.get_initial_commit().unwrap(), h(0));
    assert_eq!(repo.locate_branch("main".to_string()).unwrap(), c1);
    assert_eq!(repo.locate_tag("keep".to_string()).unwrap(), c4);
    assert_eq!(repo.list_ancestors(c4, None).unwrap(), vec![c1, h(0)]);
    assert_eq!(repo.list_children(h(0)).unwrap(), vec![c1]);
    assert_eq!(repo.list_children(c1).unwrap(), vec![c4]);
    assert_eq!(repo.find_merge_base(c4, c1).unwrap(), c1);
    let c6 = commit(&mut repo, 6);
    assert_eq!(repo.list_ancestors(c6, None).unwrap(), vec![c1, h(0)]);
}

#[test]
fn garbage_collection_keeps_both_parents_of_a_merge() {
    let mut repo = fresh();
    let c1 = commit(&mut repo, 1);
    repo.checkout_detach(h(0)).unwrap();
    let c2 = commit(&mut repo, 2);
    let c3 = commit(&mut repo, 3);
    repo.insert_commit(h(4), vec![c1, c2], plain("merge")).unwrap();
    repo.create_tag("merged".to_string(), h(4)).unwrap();
    repo.checkout("main".to_string()).unwrap();
    repo.run_garbage_collection().unwrap();
    assert!(repo.find_commit(&c3).is_none());
    assert_eq!(repo.list_children(c1).unwrap(), vec![h(4)]);
    assert_eq!(repo.list_children(c2).unwrap(), vec![h(4)]);
    assert_eq!(repo.list_ancestors(c2, None).unwrap(), vec![h(0)]);
    assert_eq!(repo.get_head().unwrap(), c1);
    repo.run_garbage_collection().unwrap();
    assert_eq!(repo.find_commit(&h(4)), Some(3));
}

#[test]
fn unknown_commit_is_named_in_hex() {
    let mut repo = fresh();
    let mut bytes = [0u8; 20];
    for (i, b) in bytes.iter_mut().enumerate() {
        *b = (i as u8) * 13 + 7;
    }
    let missing = CommitHash { hash: bytes };
    assert_eq!(
        missing.to_hex(),
        "0714212e3b4855626f7c8996a3b0bdcad7e4f1fe"
    );
    assert_eq!(
        repo.create_branch("dev".to_string(), missing),
        Err(Error::NotFound(
            "0714212e3b4855626f7c8996a3b0bdcad7e4f1fe".to_string()
        ))
    );
    assert_eq!(
        repo.list_ancestors(h(0xab), None),
        Err(Error::NotFound("ab".repeat(20)))
    );
    assert_eq!(h(0).to_hex(), "0".repeat(40));
}

#[test]
fn removing_a_remote_forgets_its_branches() {
    let mut repo = fresh();
    let c1 = commit(&mut repo, 1);
    repo.add_remote("origin".to_string(), "https://example.org/a.git".to_string())
        .unwrap();
    repo.add_remote("peer".to_string(), "https://example.org/b.git".to_string())
        .unwrap();
    repo.track_remote_branch("origin".to_string(), "main".to_string(), c1)
        .unwrap();
    repo.track_remote_branch("peer".to_string(), "main".to_string(), h(0))
        .unwrap();
    repo.track_remote_branch("origin".to_string(), "dev".to_string(), h(0))
        .unwrap();
    repo.remove_remote("origin".to_string()).unwrap();
    assert_eq!(
        repo.list_remote_tracking_branches().unwrap(),
        vec![("peer".to_string(), "main".to_string(), h(0))]
    );
    assert_eq!(
        repo.locate_remote_tracking_branch("origin".to_string(), "main".to_string()),
        Err(Error::NotFound("main".to_string()))
    );
    assert_eq!(
        repo.locate_remote_tracking_branch("peer".to_string(), "main".to_string())
            .unwrap(),
        h(0)
    );
}

#[test]
fn message_encoding() {
    let text = encode_message(&"update members".to_string(), &"adds bob".to_string());
    assert_eq!(text, "update members\n\nadds bob");
    assert_eq!(
        decode_message(&text),
        Some(("update members".to_string(), "adds bob".to_string()))
    );
    let sc = SemanticCommit {
        title: "t\u{e9}".to_string(),
        body: "first\n\nsecond\n".to_string(),
        diff: Diff::Empty,
        author: "alice".to_string(),
        timestamp: 1,
    };
    assert_eq!(sc.message(), "t\u{e9}\n\nfirst\n\nsecond\n");
    assert_eq!(
        decode_message(&sc.message()),
        Some((sc.title.clone(), sc.body.clone()))
    );
    assert_eq!(
        decode_message(&"\n\nbody".to_string()),
        Some((String::new(), "body".to_string()))
    );
    assert_eq!(
        decode_message(&"title\n\n".to_string()),
        Some(("title".to_string(), String::new()))
    );
    assert_eq!(
        decode_message(&"\n\n".to_string()),
        Some((String::new(), String::new()))
    );
    assert_eq!(decode_message(&"no break".to_string()), None);
    assert_eq!(decode_message(&"title\nbody".to_string()), None);
    assert_eq!(decode_message(&"title\n".to_string()), None);
    assert_eq!(decode_message(&"a\nb\n\nc".to_string()), None);
    assert_eq!(decode_message(&String::new()), None);
}
