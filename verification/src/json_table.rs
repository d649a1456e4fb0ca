//! The table-shape decision of the JSON bridge: whether a dynamic table
//! serializes as an array or as an object.

use vstd::prelude::*;

verus! {

/// One table key, summarized: a whole-number key with its value, or any
/// other key.
#[derive(Clone, Copy, Debug, PartialEq, Eq, Structural)]
pub enum TableKey {
    Whole(usize),
    Other,
}

/// How a table serializes: as an object with the given entry capacity, or as
/// an array of the given length.
#[derive(Clone, Copy, Debug, PartialEq, Eq, Structural)]
pub enum TableKind {
    Sparse(usize),
    ArrayLike(usize),
}

/// The scan state after reading a prefix of the keys: the highest positive
/// whole key seen so far, and whether a non-whole key has been seen. Once one
/// is seen, the highest-key tracking stops — inherited behavior.
pub open spec fn spec_scan(keys: Seq<TableKey>) -> (int, bool)
    decreases keys.len(),
{
    if keys.len() == 0 {
        (0int, false)
    } else {
        let prior = spec_scan(keys.drop_last());
        if prior.1 {
            prior
        } else {
            match keys.last() {
                TableKey::Whole(v) => if v > 0 {
                    if v > prior.0 {
                        (v as int, false)
                    } else {
                        prior
                    }
                } else {
                    (prior.0, true)
                },
                TableKey::Other => (prior.0, true),
            }
        }
    }
}

/// How the keys classify: any non-whole key makes the table an object; a
/// perfect run of whole keys makes it an array; a table at least half
/// resident over its highest key still serializes as an array; anything else
/// is an object.
pub open spec fn spec_classify(keys: Seq<TableKey>) -> TableKind {
    let scan = spec_scan(keys);
    let total = keys.len() as int;
    if scan.1 {
        TableKind::Sparse(keys.len() as usize)
    } else if scan.0 == total {
        TableKind::ArrayLike(scan.0 as usize)
    } else if 2 * total > scan.0 {
        TableKind::ArrayLike(scan.0 as usize)
    } else {
        TableKind::Sparse(keys.len() as usize)
    }
}

/// The JSON bridge of the scripting surface.
pub struct Json;

impl Json {
    /// Classifies a table's keys as array-like or sparse.
    pub fn classify_table(keys: &Vec<TableKey>) -> (r: TableKind)
        ensures
            r == spec_classify(keys@),
    {
        let n = keys.len();
        let mut highest: usize = 0;
        let mut has_non_whole: bool = false;
        let mut k: usize = 0;
        while k < n
            invariant
                0 <= k <= n,
                n == keys@.len(),
                spec_scan(keys@.subrange(0, k as int)) == (highest as int, has_non_whole),
            decreases n - k,
        {
            let ghost pre = keys@.subrange(0, k as int);
            if !has_non_whole {
                match keys[k] {
                    TableKey::Whole(v) => {
                        if v > 0 {
                            if v > highest {
                                highest = v;
                            }
                        } else {
                            has_non_whole = true;
                        }
                    },
                    TableKey::Other => {
                        has_non_whole = true;
                    },
                }
            }
            proof {
                let cur = keys@.subrange(0, k + 1);
                assert(cur.drop_last() =~= pre);
                assert(cur.last() == keys@[k as int]);
            }
            k += 1;
        }
        proof {
            assert(keys@.subrange(0, n as int) =~= keys@);
        }
        if has_non_whole {
            return TableKind::Sparse(n);
        }
        if highest == n {
            return TableKind::ArrayLike(highest);
        }
        if 2 * (n as u128) > (highest as u128) {
            TableKind::ArrayLike(highest)
        } else {
            TableKind::Sparse(n)
        }
    }
}

} // verus!
