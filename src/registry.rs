use vstd::prelude::*;

verus! {

/// Whether two account keys are the same byte string.
pub fn same_key(a: &Vec<u8>, b: &Vec<u8>) -> (r: bool)
    ensures
        r == (a@ == b@),
{
    if a.len() != b.len() {
        return false;
    }
    let mut i: usize = 0;
    while i < a.len()
        invariant
            a@.len() == b@.len(),
            0 <= i <= a@.len(),
            forall|j: int| 0 <= j < i ==> a@[j] == b@[j],
        decreases a@.len() - i,
    {
        if a[i] != b[i] {
            return false;
        }
        i = i + 1;
    }
    assert(a@ =~= b@);
    true
}

/// The position of `key` among `members`, if it is there.
pub fn find_member(members: &Vec<Vec<u8>>, key: &Vec<u8>) -> (r: Option<usize>)
    ensures
        match r {
            Some(i) => i < members@.len() && members@[i as int]@ == key@,
            None => forall|j: int| 0 <= j < members@.len() ==> members@[j]@ != key@,
        },
{
    let mut i: usize = 0;
    while i < members.len()
        invariant
            0 <= i <= members@.len(),
            forall|j: int| 0 <= j < i ==> members@[j]@ != key@,
        decreases members@.len() - i,
    {
        if same_key(&members[i], key) {
            return Some(i);
        }
        i = i + 1;
    }
    None
}

/// Whether some key is listed twice in `v`.
pub fn has_duplicate(v: &Vec<Vec<u8>>) -> (r: bool)
    ensures
        r == exists|i: int, j: int| 0 <= i < j < v@.len() && #[trigger] v@[i]@ == #[trigger] v@[j]@,
{
    let mut j: usize = 0;
    while j < v.len()
        invariant
            0 <= j <= v@.len(),
            forall|a: int, b: int| 0 <= a < b < j ==> #[trigger] v@[a]@ != #[trigger] v@[b]@,
        decreases v@.len() - j,
    {
        let mut i: usize = 0;
        while i < j
            invariant
                0 <= i <= j < v@.len(),
                forall|a: int, b: int| 0 <= a < b < j ==> #[trigger] v@[a]@ != #[trigger] v@[b]@,
                forall|a: int| 0 <= a < i ==> v@[a]@ != v@[j as int]@,
            decreases j - i,
        {
            if same_key(&v[i], &v[j]) {
                return true;
            }
            i = i + 1;
        }
        j = j + 1;
    }
    false
}

} // verus!
