use vstd::prelude::*;

verus! {

/// Another action `j` claims the key of action `i`: it has a modifier configured, one of its
/// keys has the same code as that of `i`, and its modifier is held.
pub open spec fn claimed_by_other(
    i: int,
    modifier: Seq<Option<i64>>,
    modifier_pressed: Seq<bool>,
    codes: Seq<i64>,
) -> bool {
    exists|j: int|
        0 <= j < codes.len() && j != i && (#[trigger] modifier[j]) is Some && codes[j] == codes[i]
            && modifier_pressed[j]
}

/// Whether action `i` counts as pressed: its own key is pressed, its modifier is held where
/// one is configured for it (`modifier[i]` holds the modifier's key code), and no other
/// action with a held modifier is bound to the same key code.
pub fn action_pressed(
    i: usize,
    pressed: &Vec<bool>,
    modifier: &Vec<Option<i64>>,
    modifier_pressed: &Vec<bool>,
    codes: &Vec<i64>,
) -> (r: bool)
    requires
        i < pressed@.len(),
        modifier@.len() == pressed@.len(),
        modifier_pressed@.len() == pressed@.len(),
        codes@.len() == pressed@.len(),
    ensures
        r == (pressed@[i as int] && (modifier@[i as int] is Some ==> modifier_pressed@[i as int])
            && !claimed_by_other(i as int, modifier@, modifier_pressed@, codes@)),
{
    if !pressed[i] {
        return false;
    }
    if modifier[i].is_some() && !modifier_pressed[i] {
        return false;
    }
    let n = codes.len();
    let mut j: usize = 0;
    while j < n
        invariant
            n == codes@.len(),
            i < n,
            modifier@.len() == n,
            modifier_pressed@.len() == n,
            j <= n,
            forall|k: int|
                0 <= k < j ==> !(k != i && (#[trigger] modifier@[k]) is Some && codes@[k] == codes@[i as int]
                    && modifier_pressed@[k]),
        decreases n - j,
    {
        if j != i && modifier[j].is_some() && codes[j] == codes[i] && modifier_pressed[j] {
            assert(modifier@[j as int] is Some);
            return false;
        }
        j += 1;
    }
    true
}

} // verus!
