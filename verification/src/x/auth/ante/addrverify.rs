use vstd::prelude::*;

use super::tx::StdTx;
use crate::types::InterLiquidSdkError;
use crate::utils::sorted_map::SortedMap;

verus! {

/// Every address in some signer set of `msg_signers` has authentication
/// info in `auth_info`.
pub open spec fn signers_authorized<A>(msg_signers: Seq<SortedMap<()>>, auth_info: Map<Seq<u8>, A>) -> bool {
    forall|i: int, a: Seq<u8>|
        0 <= i < msg_signers.len() && #[trigger] msg_signers[i]@.contains_key(a) ==> auth_info.contains_key(a)
}

/// Checks that every address that must sign a message of a transaction has
/// authentication info in it.
pub struct AddrVerifyAnteHandler {}

impl AddrVerifyAnteHandler {
    pub fn new() -> (r: Self) {
        Self {}
    }

    /// Given the signer set of each message of `tx`, succeeds when every
    /// signer has authentication info in `tx`, and fails with
    /// `Unauthorized` otherwise.
    pub fn handle(&self, msg_signers: &Vec<SortedMap<()>>, tx: &StdTx) -> (r: Result<(), InterLiquidSdkError>)
        requires
            tx.auth_info.wf(),
        ensures
            r is Ok <==> signers_authorized(msg_signers@, tx.auth_info@),
            r is Ok <==> forall|i: int, a: Seq<u8>|
                0 <= i < msg_signers@.len() && #[trigger] msg_signers@[i]@.contains_key(a) ==> tx.auth_info@.contains_key(a),
            r matches Err(e) ==> e is Unauthorized,
    {
        let mut i: usize = 0;
        while i < msg_signers.len()
            invariant
                i <= msg_signers@.len(),
                tx.auth_info.wf(),
                forall|j: int, a: Seq<u8>|
                    0 <= j < i && #[trigger] msg_signers@[j]@.contains_key(a) ==> tx.auth_info@.contains_key(a),
            decreases msg_signers@.len() - i,
        {
            let signers = &msg_signers[i];
            let mut t: usize = 0;
            while t < signers.entries.len()
                invariant
                    i < msg_signers@.len(),
                    *signers == msg_signers@[i as int],
                    t <= signers.size(),
                    tx.auth_info.wf(),
                    forall|u: int| 0 <= u < t ==> tx.auth_info@.contains_key(#[trigger] signers.key_at(u)),
                decreases signers.size() - t,
            {
                let signer = &signers.entries[t].0;
                if !tx.auth_info.contains_key(signer.as_slice()) {
                    assert(signers.key_at(t as int) == signer@);
                    assert(msg_signers@[i as int]@.contains_key(signer@));
                    return Err(
                        InterLiquidSdkError::Unauthorized(String::from_str("address is not contained in auth info")),
                    );
                }
                t += 1;
            }
            assert forall|j: int, a: Seq<u8>|
                0 <= j < i + 1 && #[trigger] msg_signers@[j]@.contains_key(a) implies tx.auth_info@.contains_key(a) by {
                if j == i {
                    let u = choose|u: int| 0 <= u < signers.size() && #[trigger] signers.key_at(u) == a;
                }
            }
            i += 1;
        }
        Ok(())
    }
}

/// A signer of any message, the first one included, that has no
/// authentication info makes the signers unauthorized.
pub proof fn law_missing_signer_is_unauthorized<A>(
    msg_signers: Seq<SortedMap<()>>,
    auth_info: Map<Seq<u8>, A>,
    i: int,
    a: Seq<u8>,
)
    requires
        0 <= i < msg_signers.len(),
        msg_signers[i]@.contains_key(a),
        !auth_info.contains_key(a),
    ensures
        !signers_authorized(msg_signers, auth_info),
{
}

/// When every signer of every message has authentication info, the signers
/// are authorized; with no messages they always are.
pub proof fn law_present_signers_are_authorized<A>(msg_signers: Seq<SortedMap<()>>, auth_info: Map<Seq<u8>, A>)
    requires
        forall|i: int, a: Seq<u8>|
            0 <= i < msg_signers.len() && #[trigger] msg_signers[i]@.contains_key(a) ==> auth_info.contains_key(a),
    ensures
        signers_authorized(msg_signers, auth_info),
        signers_authorized(Seq::<SortedMap<()>>::empty(), auth_info),
{
}

} // verus!
