//! Request identifiers: a client numbers its requests 0, 2, 4, ... and a
//! server 1, 3, 5, ...; each side checks the parity of the identifiers it
//! receives against the role of their sender.
use vstd::prelude::*;

verus! {

/// The side of a session that sends a request.
#[derive(Debug, Clone, Copy, PartialEq, Eq, Structural)]
pub enum EndpointRole {
    Client,
    Server,
}

/// The lowest bit that every request identifier of `role` carries: 0 for a
/// client, 1 for a server.
pub open spec fn role_parity(role: EndpointRole) -> u64 {
    match role {
        EndpointRole::Client => 0,
        EndpointRole::Server => 1,
    }
}

/// The identifier an allocator holds after one allocation, given the one it
/// held before: two more, or `None` past `u64::MAX` or once used up.
pub open spec fn next_after_allocate(next: Option<u64>) -> Option<u64> {
    match next {
        Some(current) => if current + 2 <= u64::MAX {
            Some((current + 2) as u64)
        } else {
            None
        },
        None => None,
    }
}

/// The identifier an allocator holds after `k` allocations, starting from
/// `next`; its `k + 1`-th allocation returns this value.
pub open spec fn next_after(next: Option<u64>, k: nat) -> Option<u64>
    decreases k,
{
    if k == 0 {
        next
    } else {
        next_after_allocate(next_after(next, (k - 1) as nat))
    }
}

/// Hands out the request identifiers of one side, in increasing order.
#[derive(Debug, PartialEq, Eq)]
pub struct RequestIdAllocator {
    /// The identifier that the next allocation returns; `None` once the
    /// identifiers are used up.
    pub next: Option<u64>,
}

impl View for RequestIdAllocator {
    type V = Option<u64>;

    open spec fn view(&self) -> Option<u64> {
        self.next
    }
}

impl RequestIdAllocator {
    /// Every identifier this allocator can still hand out belongs to `role`.
    pub open spec fn serves(&self, role: EndpointRole) -> bool {
        self.next matches Some(id) ==> accepts(role, id)
    }

    /// An allocator whose first identifier is 0 for a client and 1 for a server.
    pub fn new(role: EndpointRole) -> (allocator: Self)
        ensures
            allocator@ == Some(role_parity(role)),
            allocator.serves(role),
    {
        let first = match role {
            EndpointRole::Client => 0,
            EndpointRole::Server => 1,
        };
        Self { next: Some(first) }
    }

    /// Returns the next identifier and moves on by two, or `None` when the
    /// identifiers are used up.
    pub fn allocate(&mut self) -> (id: Option<u64>)
        ensures
            id == old(self)@,
            final(self)@ == next_after_allocate(old(self)@),
            forall|role: EndpointRole| old(self).serves(role) ==> final(self).serves(role),
            id matches Some(current) ==> (final(self)@ matches Some(next) ==> current < next),
    {
        let current = match self.next {
            Some(current) => current,
            None => {
                return None;
            },
        };
        self.next = current.checked_add(2);
        Some(current)
    }
}

/// Why a received request identifier is refused.
#[derive(Debug, Clone, Copy, PartialEq, Eq, Structural)]
pub enum RequestIdValidationError {
    /// The identifier's parity does not belong to the role of its sender.
    IncorrectParity { request_id: u64, sender: EndpointRole },
}

/// Checks the identifiers of requests that the peer of role `sender` sends.
#[derive(Debug, PartialEq, Eq)]
pub struct RequestIdValidator {
    sender: EndpointRole,
}

impl View for RequestIdValidator {
    type V = EndpointRole;

    closed spec fn view(&self) -> EndpointRole {
        self.sender
    }
}

impl RequestIdValidator {
    /// A validator for requests sent by `sender`.
    pub fn new(sender: EndpointRole) -> (validator: Self)
        ensures
            validator@ == sender,
    {
        Self { sender }
    }

    /// Accepts `request_id` when its lowest bit is that of the sender's role.
    pub fn validate(&mut self, request_id: u64) -> (result: Result<(), RequestIdValidationError>)
        ensures
            final(self)@ == old(self)@,
            result is Ok <==> request_id % 2 == (if old(self)@ == EndpointRole::Client {
                0u64
            } else {
                1u64
            }),
            result == (if accepts(old(self)@, request_id) {
                Ok::<(), RequestIdValidationError>(())
            } else {
                Err(RequestIdValidationError::IncorrectParity { request_id, sender: old(self)@ })
            }),
    {
        let expected_lsb: u64 = match self.sender {
            EndpointRole::Client => 0,
            EndpointRole::Server => 1,
        };
        assert(request_id & 1 == request_id % 2) by (bit_vector);
        if request_id & 1 != expected_lsb {
            return Err(RequestIdValidationError::IncorrectParity { request_id, sender: self.sender });
        }
        Ok(())
    }
}

/// Whether a request identifier may come from a sender of role `sender`.
pub open spec fn accepts(sender: EndpointRole, request_id: u64) -> bool {
    request_id % 2 == role_parity(sender)
}

/// Every identifier that an allocator serving `role` hands out, now or after
/// any number of allocations, is accepted by a validator for requests sent by
/// `role`.
pub proof fn lemma_allocated_ids_validate(allocator: RequestIdAllocator, role: EndpointRole)
    requires
        allocator.serves(role),
    ensures
        allocator@ matches Some(id) ==> accepts(role, id),
{
}

/// An allocator that starts at `first` holds `first + 2k` after `k`
/// allocations while that fits in a `u64`, and `None` from then on.
pub proof fn lemma_next_after(first: u64, k: nat)
    ensures
        next_after(Some(first), k) == (if first + 2 * k <= u64::MAX {
            Some((first + 2 * k) as u64)
        } else {
            None::<u64>
        }),
    decreases k,
{
    if k > 0 {
        lemma_next_after(first, (k - 1) as nat);
    }
}

/// The `k + 1`-th allocation of an allocator made by `new(role)` returns
/// `first + 2k`, where `first` is 0 for a client and 1 for a server, while that
/// fits in a `u64`, and `None` from then on; every identifier it returns is
/// accepted by a validator for requests sent by `role`.
pub proof fn lemma_allocations_from_new(role: EndpointRole, k: nat)
    ensures
        next_after(Some(role_parity(role)), k) == (if role_parity(role) + 2 * k <= u64::MAX {
            Some((role_parity(role) + 2 * k) as u64)
        } else {
            None::<u64>
        }),
        next_after(Some(role_parity(role)), k) matches Some(id) ==> accepts(role, id),
{
    lemma_next_after(role_parity(role), k);
}

/// The identifiers one allocator returns are strictly increasing, hence
/// pairwise distinct, and all share the parity of the first.
pub proof fn lemma_allocations_distinct(first: u64, j: nat, k: nat)
    requires
        j < k,
        next_after(Some(first), k) is Some,
    ensures
        next_after(Some(first), j) is Some,
        next_after(Some(first), j)->Some_0 < next_after(Some(first), k)->Some_0,
        next_after(Some(first), k)->Some_0 % 2 == first % 2,
{
    lemma_next_after(first, j);
    lemma_next_after(first, k);
}

/// A client's requests carry even identifiers and a server's odd ones: an
/// identifier is accepted for a sender exactly when its parity is the
/// sender's, so every identifier of the other parity is refused.
pub proof fn lemma_acceptance_is_parity(sender: EndpointRole, request_id: u64)
    ensures
        accepts(sender, request_id) <==> (sender == EndpointRole::Client && request_id % 2 == 0)
            || (sender == EndpointRole::Server && request_id % 2 == 1),
        accepts(EndpointRole::Client, request_id) != accepts(EndpointRole::Server, request_id),
{
}

} // verus!
