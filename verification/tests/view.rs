use mpz::zk::view::{Role, View, ViewError};

fn new(role: Role) -> View {
    match role {
        Role::Prover => View::new_prover(),
        Role::Verifier => View::new_verifier(),
    }
}

const ROLES: [Role; 2] = [Role::Prover, Role::Verifier];

#[test]
fn test_is_alloc() {
    for role in ROLES {
        let mut view = new(role);

        view.alloc_input(10);

        assert!(view.is_alloc(0..10));
        assert!(!view.is_alloc(0..11));
    }
}

#[test]
fn test_assign_blind() {
    for role in ROLES {
        let mut view = new(role);

        view.alloc_input(10);
        view.mark_blind(0..10).unwrap();
        let err = view.assign(0..10).unwrap_err();

        assert!(matches!(err, ViewError::VisibilityAssign { .. }));
    }
}

#[test]
fn test_assign_output() {
    for role in ROLES {
        let mut view = new(role);

        // Outputs cannot be marked once they are allocated.
        view.mark_public(0..10).unwrap();
        view.alloc_output(10);

        let err = view.assign(0..10).unwrap_err();

        assert!(matches!(err, ViewError::OutputAssign { .. }));
    }
}

#[test]
fn test_commit_before_visibility() {
    for role in ROLES {
        let mut view = new(role);

        view.alloc_input(10);
        let err = view.commit(0..10).unwrap_err();

        assert!(matches!(err, ViewError::VisibilityNotSet { .. }));
    }
}

#[test]
fn test_commit_output() {
    for role in ROLES {
        let mut view = new(role);

        // Outputs cannot be marked once they are allocated.
        view.mark_public(0..10).unwrap();
        view.alloc_output(10);

        let err = view.commit(0..10).unwrap_err();

        assert!(matches!(err, ViewError::OutputCommit { .. }));
    }
}

#[test]
fn test_public_commit_no_flush() {
    for role in ROLES {
        let mut view = new(role);

        view.alloc_input(10);
        view.mark_public(0..10).unwrap();
        view.assign(0..10).unwrap();
        view.commit(0..10).unwrap();

        assert!(!view.wants_flush());
    }
}

#[test]
fn test_private_commit_wants_flush() {
    let mut view = new(Role::Prover);

    view.alloc_input(10);
    view.mark_private(0..10).unwrap();
    view.assign(0..10).unwrap();
    view.commit(0..10).unwrap();

    assert!(view.wants_flush());
}

#[test]
fn test_blind_commit_wants_flush() {
    let mut view = new(Role::Verifier);

    view.alloc_input(10);
    view.mark_blind(0..10).unwrap();
    view.commit(0..10).unwrap();

    assert!(view.wants_flush());
}

#[test]
fn test_output_wants_flush() {
    for role in ROLES {
        let mut view = new(role);

        view.alloc_output(10);
        view.decode(0..10).unwrap();
        view.set_output(0..10).unwrap();

        assert!(view.wants_flush());
    }
}

#[test]
fn visibility_is_set_once() {
    let mut view = new(Role::Prover);
    view.alloc_input(4);
    view.mark_public(0..2).unwrap();
    assert!(matches!(
        view.mark_private(1..3).unwrap_err(),
        ViewError::VisibilityAlreadySet { .. }
    ));
    view.alloc_output(2);
    assert!(matches!(
        view.mark_public(4..6).unwrap_err(),
        ViewError::VisibilityOutput { .. }
    ));
    assert!(matches!(view.set_output(0..2).unwrap_err(), ViewError::NotOutput { .. }));
}

#[test]
fn visible_data_is_assigned_before_commit() {
    let mut view = new(Role::Prover);
    view.alloc_input(4);
    view.mark_private(0..4).unwrap();
    assert!(matches!(view.commit(0..4).unwrap_err(), ViewError::NotAssigned { .. }));
    view.assign(0..4).unwrap();
    view.commit(0..4).unwrap();
    assert!(!view.is_committed(0..4));
    let flush = view.flush().copy();
    view.complete_flush(flush);
    assert!(view.is_committed(0..4));
    assert!(!view.wants_flush());
    assert!(matches!(
        view.commit(0..4).unwrap_err(),
        ViewError::AlreadyCommitted { .. }
    ));
}

/// Both parties see the same flush, and nothing is left after it.
#[test]
fn parties_flush_alike() {
    let mut prover = new(Role::Prover);
    let mut verifier = new(Role::Verifier);
    prover.alloc_input(8);
    verifier.alloc_input(8);
    prover.mark_private(0..8).unwrap();
    verifier.mark_blind(0..8).unwrap();
    prover.assign(0..8).unwrap();
    prover.commit(0..8).unwrap();
    verifier.commit(0..8).unwrap();
    assert!(prover.flush().commit == verifier.flush().commit);
    assert!(prover.flush().prove == verifier.flush().prove);
    let flush = prover.flush().copy();
    prover.complete_flush(flush);
    assert!(!prover.wants_flush());
}
