//! Operation identifiers: positive 32-bit numbers handed out in turn.
use vstd::prelude::*;

verus! {

/// The highest identifier.
pub const LAST_ID: u64 = 0xffff_ffff;

/// The identifier after `id`, starting over behind the highest one.
pub open spec fn successor(id: u64) -> u64 {
    if id == LAST_ID {
        1
    } else {
        (id + 1) as u64
    }
}

/// Where the search for a free identifier starts.
pub open spec fn first_candidate(next_id: u64) -> u64 {
    if next_id == 0 {
        1
    } else if next_id > LAST_ID {
        LAST_ID
    } else {
        next_id
    }
}

/// The identifier `steps` places behind `start`.
pub open spec fn candidate(start: u64, steps: nat) -> u64
    decreases steps,
{
    if steps == 0 {
        start
    } else {
        successor(candidate(start, (steps - 1) as nat))
    }
}

/// `id` is the first identifier from `next_id` on that is not in use.
pub open spec fn is_next_free(next_id: u64, used: Seq<u64>, id: u64) -> bool {
    &&& 1 <= id <= LAST_ID
    &&& !used.contains(id)
    &&& exists|steps: nat|
        id == #[trigger] candidate(first_candidate(next_id), steps) && forall|earlier: nat|
            earlier < steps ==> used.contains(
                #[trigger] candidate(first_candidate(next_id), earlier),
            )
}

/// Where a walk through the identifiers is.
proof fn lemma_candidate(start: u64, steps: nat)
    requires
        1 <= start <= LAST_ID,
        steps < LAST_ID,
    ensures
        candidate(start, steps) == if start + steps <= LAST_ID {
            start + steps
        } else {
            start + steps - LAST_ID
        },
    decreases steps,
{
    if steps > 0 {
        lemma_candidate(start, (steps - 1) as nat);
    }
}

/// Two different places of a short walk are different identifiers.
proof fn lemma_candidates_differ(start: u64, one: nat, two: nat)
    requires
        1 <= start <= LAST_ID,
        one < two < LAST_ID,
    ensures
        candidate(start, one) != candidate(start, two),
{
    lemma_candidate(start, one);
    lemma_candidate(start, two);
}

/// The first free identifier is unique.
pub proof fn law_next_free_is_unique(next_id: u64, used: Seq<u64>, one: u64, two: u64)
    requires
        is_next_free(next_id, used, one),
        is_next_free(next_id, used, two),
    ensures
        one == two,
{
    let start = first_candidate(next_id);
    let a = choose|steps: nat|
        one == #[trigger] candidate(start, steps) && forall|earlier: nat|
            earlier < steps ==> used.contains(#[trigger] candidate(start, earlier));
    let b = choose|steps: nat|
        two == #[trigger] candidate(start, steps) && forall|earlier: nat|
            earlier < steps ==> used.contains(#[trigger] candidate(start, earlier));
    if a < b {
        assert(used.contains(candidate(start, a)));
    } else if b < a {
        assert(used.contains(candidate(start, b)));
    }
}

fn is_used(used: &[u64], id: u64) -> (found: bool)
    ensures
        found == used@.contains(id),
{
    let mut index: usize = 0;
    while index < used.len()
        invariant
            index <= used@.len(),
            forall|i: int| 0 <= i < index ==> used@[i] != id,
        decreases used@.len() - index,
    {
        if used[index] == id {
            return true;
        }
        index = index + 1;
    }
    false
}

/// The first identifier from `next_id` on that is not in `used`.
pub fn next_free(next_id: u64, used: &[u64]) -> (id: u64)
    requires
        used@.len() < LAST_ID - 1,
    ensures
        is_next_free(next_id, used@, id),
{
    let mut id: u64 = if next_id == 0 {
        1
    } else if next_id > LAST_ID {
        LAST_ID
    } else {
        next_id
    };
    let ghost start = id;
    let ghost mut steps: nat = 0;
    let ghost mut unseen: Set<u64> = used@.to_set();
    proof {
        vstd::seq_lib::seq_to_set_is_finite(used@);
        used@.lemma_cardinality_of_set();
    }
    while is_used(used, id)
        invariant
            1 <= start <= LAST_ID,
            1 <= id <= LAST_ID,
            start == first_candidate(next_id),
            id == candidate(start, steps),
            unseen.finite(),
            steps + unseen.len() <= used@.len() < LAST_ID - 1,
            forall|x: u64| unseen.contains(x) ==> used@.contains(x),
            forall|x: u64|
                used@.contains(x) && !unseen.contains(x) ==> exists|k: nat|
                    k < steps && x == #[trigger] candidate(start, k),
            forall|k: nat| k < steps ==> used@.contains(#[trigger] candidate(start, k)),
        decreases unseen.len(),
    {
        proof {
            if !unseen.contains(id) {
                let k = choose|k: nat| k < steps && id == #[trigger] candidate(start, k);
                lemma_candidates_differ(start, k, steps);
            }
            assert(unseen.contains(id));
            let left = unseen.remove(id);
            assert(left.len() + 1 == unseen.len());
            assert forall|x: u64| used@.contains(x) && !left.contains(x) implies exists|k: nat|
                k < steps + 1 && x == #[trigger] candidate(start, k) by {
                if x == id {
                    assert(id == candidate(start, steps));
                } else {
                    let k = choose|k: nat| k < steps && x == #[trigger] candidate(start, k);
                    assert(x == candidate(start, k));
                }
            }
            unseen = left;
            steps = steps + 1;
        }
        id = if id == LAST_ID {
            1
        } else {
            id + 1
        };
    }
    id
}

/// The identifier after `id`.
pub fn after(id: u64) -> (next: u64)
    requires
        1 <= id <= LAST_ID,
    ensures
        next == successor(id),
{
    if id == LAST_ID {
        1
    } else {
        id + 1
    }
}

/// Identifiers are positive numbers of 32 bits. They are tried in turn, and after the
/// last one from the first on.
pub proof fn law_identifiers_are_tried_in_turn(next_id: u64, id: u64)
    ensures
        1 <= first_candidate(next_id) <= 0xffff_ffff,
        1 <= next_id <= 0xffff_ffff ==> first_candidate(next_id) == next_id,
        1 <= id < 0xffff_ffff ==> successor(id) == id + 1,
        successor(0xffff_ffff) == 1,
        1 <= id <= 0xffff_ffff ==> 1 <= successor(id) <= 0xffff_ffff,
{
}

/// A number that is free is handed out as it is.
pub proof fn law_free_number_is_handed_out(next_id: u64, used: Seq<u64>)
    requires
        1 <= next_id <= 0xffff_ffff,
        !used.contains(next_id),
    ensures
        is_next_free(next_id, used, next_id),
{
    assert(candidate(first_candidate(next_id), 0) == next_id);
}

} // verus!
