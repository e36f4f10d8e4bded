use moqt::request_id::{
    EndpointRole, RequestIdAllocator, RequestIdValidationError, RequestIdValidator,
};

#[test]
fn client_starts_with_zero() {
    let mut allocator = RequestIdAllocator::new(EndpointRole::Client);

    assert_eq!(allocator.allocate(), Some(0));
}

#[test]
fn client_increments_by_two() {
    let mut allocator = RequestIdAllocator::new(EndpointRole::Client);

    assert_eq!(allocator.allocate(), Some(0));
    assert_eq!(allocator.allocate(), Some(2));
    assert_eq!(allocator.allocate(), Some(4));
}

#[test]
fn server_starts_with_one_and_increments_by_two() {
    let mut allocator = RequestIdAllocator::new(EndpointRole::Server);

    assert_eq!(allocator.allocate(), Some(1));
    assert_eq!(allocator.allocate(), Some(3));
    assert_eq!(allocator.allocate(), Some(5));
}

#[test]
fn returns_none_after_allocating_the_last_client_id() {
    let mut allocator = RequestIdAllocator {
        next: Some(u64::MAX - 1),
    };

    assert_eq!(allocator.allocate(), Some(u64::MAX - 1));
    assert_eq!(allocator.allocate(), None);
}

#[test]
fn accepts_even_request_id_from_client() {
    let mut validator = RequestIdValidator::new(EndpointRole::Client);

    assert_eq!(validator.validate(0), Ok(()));
}

#[test]
fn rejects_odd_request_id_from_client() {
    let mut validator = RequestIdValidator::new(EndpointRole::Client);

    assert_eq!(
        validator.validate(1),
        Err(RequestIdValidationError::IncorrectParity {
            request_id: 1,
            sender: EndpointRole::Client,
        }),
    );
}

#[test]
fn stays_exhausted_after_the_last_server_id() {
    let mut allocator = RequestIdAllocator {
        next: Some(u64::MAX),
    };

    assert_eq!(allocator.allocate(), Some(u64::MAX));
    assert_eq!(allocator.allocate(), None);
    assert_eq!(allocator.allocate(), None);
}

#[test]
fn allocated_ids_pass_validation_for_the_same_role() {
    for role in [EndpointRole::Client, EndpointRole::Server] {
        let mut allocator = RequestIdAllocator::new(role);
        let mut validator = RequestIdValidator::new(role);
        for _ in 0..10 {
            let id = allocator.allocate().unwrap();
            assert_eq!(validator.validate(id), Ok(()));
        }
    }
}

#[test]
fn server_validator_rejects_even_and_accepts_odd() {
    let mut validator = RequestIdValidator::new(EndpointRole::Server);

    assert_eq!(validator.validate(7), Ok(()));
    assert_eq!(
        validator.validate(8),
        Err(RequestIdValidationError::IncorrectParity {
            request_id: 8,
            sender: EndpointRole::Server,
        }),
    );
}

#[test]
fn kth_allocation_is_first_plus_twice_k_until_exhausted() {
    for (role, first) in [(EndpointRole::Client, 0_u64), (EndpointRole::Server, 1)] {
        let mut allocator = RequestIdAllocator::new(role);
        for k in 0..100_u64 {
            assert_eq!(allocator.allocate(), Some(first + 2 * k));
        }
    }

    let mut allocator = RequestIdAllocator {
        next: Some(u64::MAX - 5),
    };
    assert_eq!(allocator.allocate(), Some(u64::MAX - 5));
    assert_eq!(allocator.allocate(), Some(u64::MAX - 3));
    assert_eq!(allocator.allocate(), Some(u64::MAX - 1));
    assert_eq!(allocator.allocate(), None);
    assert_eq!(allocator.allocate(), None);
}
