use salamander::branch::{
    divergence_of, BranchCatalog, BranchInfo, BranchName, BranchStatus, DEFAULT_BRANCH_NAME, MAX_BRANCH_NAME_BYTES,
    MAX_LINEAGE_DEPTH,
};
use salamander::error::SalamanderError;
use salamander::format::ids::BranchId;
use salamander::format::metadata::Metadata;

fn node(id: u8, parent: Option<u8>, fork_position: Option<u64>) -> BranchInfo {
    BranchInfo {
        id: BranchId::from_bytes([id; 16]),
        name: BranchName::new(&format!("branch-{id}")).unwrap(),
        parent: parent.map(|p| BranchId::from_bytes([p; 16])),
        fork_position,
        created_at_unix_nanos: 0,
        metadata: Metadata::new(),
        status: BranchStatus::Active,
    }
}

fn root() -> BranchInfo {
    BranchInfo {
        id: BranchId::zero(),
        name: BranchName::new(DEFAULT_BRANCH_NAME).unwrap(),
        parent: None,
        fork_position: None,
        created_at_unix_nanos: 0,
        metadata: Metadata::new(),
        status: BranchStatus::Active,
    }
}

#[test]
fn ancestor_vs_descendant_diverges_at_the_fork() {
    let main = vec![root()];
    let fork = vec![root(), node(1, Some(0), Some(8))];
    let (ancestor, d) = divergence_of(&main, 12, &fork, 17);
    assert_eq!(ancestor.id, BranchId::zero());
    assert_eq!(d, 8);
}

#[test]
fn siblings_diverge_at_the_earlier_fork() {
    let left = vec![root(), node(1, Some(0), Some(5))];
    let right = vec![root(), node(2, Some(0), Some(9))];
    let (ancestor, d) = divergence_of(&left, 20, &right, 20);
    assert_eq!(ancestor.id, BranchId::zero());
    assert_eq!(d, 5);
}

#[test]
fn same_branch_diverges_at_the_smaller_until() {
    let path = vec![root(), node(1, Some(0), Some(3))];
    let (ancestor, d) = divergence_of(&path, 4, &path, 9);
    assert_eq!(ancestor.id, path[1].id);
    assert_eq!(d, 4);
    let (_, d) = divergence_of(&path, 9, &path, 9);
    assert_eq!(d, 9);
}

#[test]
fn an_until_below_the_fork_caps_the_divergence() {
    let main = vec![root()];
    let fork = vec![root(), node(1, Some(0), Some(8))];
    let (_, d) = divergence_of(&main, 3, &fork, 17);
    assert_eq!(d, 3);
}

#[test]
fn grandchildren_share_the_deepest_common_node() {
    let child = node(1, Some(0), Some(4));
    let left = vec![root(), child.clone(), node(2, Some(1), Some(7))];
    let right = vec![root(), child.clone(), node(3, Some(1), Some(10))];
    let (ancestor, d) = divergence_of(&left, 20, &right, 20);
    assert_eq!(ancestor.id, child.id);
    assert_eq!(d, 7);
}

#[test]
fn fork_at_zero_diverges_at_zero() {
    let main = vec![root()];
    let fork = vec![root(), node(1, Some(0), Some(0))];
    let (_, d) = divergence_of(&main, 6, &fork, 6);
    assert_eq!(d, 0);
}

#[test]
fn a_fork_below_its_parents_fork_caps_the_divergence() {
    let a = node(1, Some(0), Some(1));
    let a_path = vec![root(), a.clone()];
    let b_path = vec![root(), a, node(2, Some(1), Some(0))];
    let (ancestor, d) = divergence_of(&b_path, 2, &a_path, 2);
    assert_eq!(ancestor.id, b_path[1].id);
    assert_eq!(d, 0);
}

#[test]
fn replay_scopes_cascade_downstream_fork_caps() {
    let mut catalog = BranchCatalog::new();
    catalog.insert(node(1, Some(0), Some(3))).unwrap();
    catalog.insert(node(2, Some(1), Some(1))).unwrap();
    assert_eq!(
        catalog.replay_scopes(BranchId::from_bytes([2; 16]), 10).unwrap(),
        vec![
            (BranchId::zero(), 1),
            (BranchId::from_bytes([1; 16]), 1),
            (BranchId::from_bytes([2; 16]), 10),
        ]
    );
}

#[test]
fn branch_names_are_limited() {
    assert!(matches!(BranchName::new(""), Err(SalamanderError::InvalidArgument(_))));
    assert!(matches!(BranchName::new("a\0b"), Err(SalamanderError::InvalidArgument(_))));
    assert!(BranchName::new(&"n".repeat(MAX_BRANCH_NAME_BYTES)).is_ok());
    assert!(matches!(
        BranchName::new(&"n".repeat(MAX_BRANCH_NAME_BYTES + 1)),
        Err(SalamanderError::ResourceLimit { resource: "branch name bytes", actual: 256, maximum: 255 })
    ));
}

#[test]
fn a_catalog_takes_no_branch_twice_and_no_orphan() {
    let mut catalog = BranchCatalog::new();
    catalog.insert(node(1, Some(0), Some(3))).unwrap();
    assert!(matches!(catalog.insert(node(1, Some(0), Some(4))), Err(SalamanderError::BranchExists(_))));
    assert!(matches!(catalog.insert(node(7, Some(6), Some(4))), Err(SalamanderError::BranchNotFound(_))));
    assert_eq!(catalog.len(), 2);
    assert_eq!(catalog.named("branch-1").unwrap().id, BranchId::from_bytes([1; 16]));
    assert!(catalog.named("branch-2").is_none());
}

#[test]
fn lineage_is_bounded() {
    let mut catalog = BranchCatalog::new();
    let mut depth = 1usize;
    let mut id = 1u8;
    while depth < MAX_LINEAGE_DEPTH {
        catalog.insert(node(id, Some(id - 1), Some(0))).unwrap();
        id += 1;
        depth += 1;
    }
    assert!(matches!(
        catalog.insert(node(id, Some(id - 1), Some(0))),
        Err(SalamanderError::InvalidBranchAncestry(_))
    ));
    assert_eq!(catalog.ancestry(BranchId::from_bytes([id - 1; 16])).unwrap().len(), MAX_LINEAGE_DEPTH);
}

#[test]
fn children_come_by_name() {
    let mut catalog = BranchCatalog::new();
    catalog.insert(node(9, Some(0), Some(1))).unwrap();
    catalog.insert(node(4, Some(0), Some(2))).unwrap();
    catalog.insert(node(5, Some(4), Some(2))).unwrap();
    let names: Vec<String> = catalog.children(BranchId::zero()).iter().map(|b| b.name.as_str().to_string()).collect();
    assert_eq!(names, vec!["branch-4".to_string(), "branch-9".to_string()]);
}

#[test]
fn unrelated_sides_meet_at_the_default_branch() {
    let mut catalog = BranchCatalog::new();
    catalog.insert(node(1, Some(0), Some(3))).unwrap();
    catalog.insert(node(2, Some(0), Some(5))).unwrap();
    let (ancestor, at) =
        catalog.divergence(BranchId::from_bytes([1; 16]), 9, BranchId::from_bytes([2; 16]), 9).unwrap();
    assert_eq!(ancestor.id, BranchId::zero());
    assert_eq!(at, 3);
    assert_eq!(
        catalog.common_ancestor(BranchId::from_bytes([1; 16]), BranchId::zero()).unwrap().id,
        BranchId::zero()
    );
}
