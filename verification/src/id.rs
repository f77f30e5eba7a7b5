//! Peer-identifier generation: a fixed client prefix followed by random
//! bytes.

use vstd::prelude::*;

verus! {

/// The 8-byte client prefix `-FK0010-` that every generated identifier
/// starts with.
pub open spec fn id_prefix() -> Seq<u8> {
    seq![45u8, 70u8, 75u8, 48u8, 48u8, 49u8, 48u8, 45u8]
}

/// Relies on `rand::thread_rng` and `rand::Rng::gen::<u8>`: one random
/// byte.  Nothing is promised of its value.
#[verifier::external_body]
fn random_byte() -> u8 {
    rand::Rng::gen::<u8>(&mut rand::thread_rng())
}

/// A 20-byte peer identifier: the client prefix `-FK0010-`, then random
/// bytes up to the full length.
pub fn generate_id() -> (r: Vec<u8>)
    ensures
        r@.len() == 20,
        r@.subrange(0, 8) == id_prefix(),
{
    let mut id: Vec<u8> = Vec::new();
    id.push(45);
    id.push(70);
    id.push(75);
    id.push(48);
    id.push(48);
    id.push(49);
    id.push(48);
    id.push(45);
    proof {
        assert(id@ =~= id_prefix());
    }
    while id.len() < 20
        invariant
            8 <= id@.len() <= 20,
            id@.subrange(0, 8) =~= id_prefix(),
        decreases 20 - id.len(),
    {
        id.push(random_byte());
        proof {
            assert(id@.subrange(0, 8) =~= id_prefix());
        }
    }
    id
}

} // verus!
