//! Exact-coverage validation of the message maps the driver supplies.
//!
//! Each round consumes a map from participant index to bytes, given as a
//! list of `(index, bytes)` pairs.  The map must cover `1..=n` exactly once,
//! with the local entry inserted here from the locally kept value.  The
//! result is the dense table of messages, one per participant, in index
//! order.

use vstd::prelude::*;
use crate::error::FrostError;

verus! {

/// The key of each entry.
pub open spec fn keys_of(entries: Seq<(u16, Vec<u8>)>) -> Seq<u16> {
    entries.map_values(|e: (u16, Vec<u8>)| e.0)
}

/// Entry `k` must be rejected: its key is the local index, out of range, or
/// already taken by an earlier entry.
pub open spec fn entry_bad(keys: Seq<u16>, n: int, i: int, k: int) -> bool {
    ||| keys[k] as int == i
    ||| keys[k] < 1
    ||| keys[k] as int > n
    ||| exists|k2: int| 0 <= k2 < k && keys[k2] == keys[k]
}

/// Some entry must be rejected.
pub open spec fn some_entry_bad(keys: Seq<u16>, n: int, i: int) -> bool {
    exists|k: int| 0 <= k < keys.len() && #[trigger] entry_bad(keys, n, i, k)
}

/// The map supplies an entry for participant `l`.
pub open spec fn covers(keys: Seq<u16>, l: int) -> bool {
    exists|k: int| 0 <= k < keys.len() && #[trigger] keys[k] as int == l
}

/// The map covers `1..=n` exactly once, the local index excluded.
pub open spec fn map_complete(keys: Seq<u16>, n: int, i: int) -> bool {
    !some_entry_bad(keys, n, i) && (forall|l: int| 1 <= l <= n && l != i ==> covers(keys, l))
}

/// The bytes a complete map supplies for participant `l`.
pub open spec fn lookup(entries: Seq<(u16, Vec<u8>)>, l: int) -> Seq<u8> {
    let k = choose|k: int| 0 <= k < entries.len() && entries[k].0 as int == l;
    entries[k].1@
}

/// The dense message table a complete map validates to: the local bytes at
/// the local index, the supplied bytes everywhere else.
pub open spec fn assembled(entries: Seq<(u16, Vec<u8>)>, n: int, i: int, ours: Seq<u8>) -> Seq<
    Seq<u8>,
> {
    Seq::new(n as nat, |j: int| if j + 1 == i { ours } else { lookup(entries, j + 1) })
}

/// The exact errors an incomplete map yields: `DuplicatedIndex` for the
/// first entry that must be rejected, else `MissingParticipant` for the
/// smallest uncovered index.
pub open spec fn validate_err(keys: Seq<u16>, n: int, i: int, e: FrostError) -> bool {
    match e {
        FrostError::DuplicatedIndex(l) => exists|k: int|
            {
                &&& 0 <= k < keys.len()
                &&& keys[k] == l
                &&& #[trigger] entry_bad(keys, n, i, k)
                &&& forall|k2: int| 0 <= k2 < k ==> !#[trigger] entry_bad(keys, n, i, k2)
            },
        FrostError::MissingParticipant(l) => {
            &&& !some_entry_bad(keys, n, i)
            &&& 1 <= l as int <= n
            &&& l as int != i
            &&& !covers(keys, l as int)
            &&& forall|l2: int| 1 <= l2 < l as int && l2 != i ==> #[trigger] covers(keys, l2)
        },
        _ => false,
    }
}

/// Copies a byte vector.
fn clone_bytes(v: &Vec<u8>) -> (r: Vec<u8>)
    ensures
        r@ == v@,
{
    let mut r: Vec<u8> = Vec::new();
    let mut k: usize = 0;
    while k < v.len()
        invariant
            k <= v@.len(),
            r@ == v@.take(k as int),
        decreases v@.len() - k,
    {
        r.push(v[k]);
        proof {
            assert(v@.take(k as int).push(v@[k as int]) =~= v@.take(k as int + 1));
        }
        k = k + 1;
    }
    proof {
        assert(v@.take(v@.len() as int) =~= v@);
    }
    r
}

/// Validates that `entries`, together with the local pair `(our_i, ours)`,
/// covers `1..=n` exactly once, and assembles the dense message table.
///
/// Succeeds if and only if the map is complete.  A repeated index, the local
/// index, or an index outside `1..=n` is reported as `DuplicatedIndex` for
/// the first such entry; otherwise the smallest uncovered index is reported
/// as `MissingParticipant`.
pub fn validate_map(entries: Vec<(u16, Vec<u8>)>, n: u16, our_i: u16, ours: Vec<u8>) -> (r: Result<
    Vec<Vec<u8>>,
    FrostError,
>)
    requires
        1 <= our_i <= n,
    ensures
        ({
            let keys = keys_of(entries@);
            match r {
                Ok(res) => {
                    &&& map_complete(keys, n as int, our_i as int)
                    &&& res@.len() == n as int
                    &&& forall|j: int|
                        0 <= j < n as int ==> #[trigger] res@[j]@ == assembled(
                            entries@,
                            n as int,
                            our_i as int,
                            ours@,
                        )[j]
                },
                Err(e) => validate_err(keys, n as int, our_i as int, e),
            }
        }),
{
    let n_us = n as usize;
    let i_us = our_i as usize;
    let ghost keys = keys_of(entries@);

    let mut res: Vec<Vec<u8>> = Vec::new();
    let mut filled: Vec<bool> = Vec::new();
    let mut j: usize = 0;
    while j < n_us
        invariant
            j <= n_us,
            res@.len() == j,
            filled@.len() == j,
            forall|j2: int| 0 <= j2 < j ==> !#[trigger] filled@[j2],
        decreases n_us - j,
    {
        res.push(Vec::new());
        filled.push(false);
        j = j + 1;
    }

    res[i_us - 1] = ours;
    filled[i_us - 1] = true;

    let mut k: usize = 0;
    while k < entries.len()
        invariant
            k <= entries@.len(),
            keys == keys_of(entries@),
            keys.len() == entries@.len(),
            1 <= our_i <= n,
            res@.len() == n as int,
            filled@.len() == n as int,
            res@[our_i as int - 1]@ == ours@,
            filled@[our_i as int - 1],
            forall|k2: int| 0 <= k2 < k ==> !#[trigger] entry_bad(keys, n as int, our_i as int, k2),
            forall|j2: int|
                0 <= j2 < n as int ==> (#[trigger] filled@[j2] <==> (j2 == our_i as int - 1
                    || exists|k2: int| 0 <= k2 < k && #[trigger] keys[k2] as int == j2 + 1)),
            forall|k2: int|
                0 <= k2 < k ==> res@[(#[trigger] entries@[k2]).0 as int - 1]@ == entries@[k2].1@,
        decreases entries@.len() - k,
    {
        let l = entries[k].0;
        proof {
            assert(keys[k as int] == entries@[k as int].0);
            assert(keys[k as int] == l);
        }
        if l < 1 || l > n {
            proof {
                assert(entry_bad(keys, n as int, our_i as int, k as int));
            }
            return Err(FrostError::DuplicatedIndex(l));
        }
        let l_us = l as usize;
        if filled[l_us - 1] {
            proof {
                assert(filled@[l as int - 1]);
                if l != our_i {
                    let k2 = choose|k2: int| 0 <= k2 < k && #[trigger] keys[k2] as int == l as int;
                    assert(keys[k2] == keys[k as int]);
                }
                assert(entry_bad(keys, n as int, our_i as int, k as int));
            }
            return Err(FrostError::DuplicatedIndex(l));
        }
        proof {
            assert(!filled@[l as int - 1]);
            assert(l != our_i);
            assert(!entry_bad(keys, n as int, our_i as int, k as int)) by {
                if exists|k2: int| 0 <= k2 < k && keys[k2] == keys[k as int] {
                    let k2 = choose|k2: int| 0 <= k2 < k && keys[k2] == keys[k as int];
                    assert(keys[k2] as int == l as int);
                    assert(filled@[l as int - 1]);
                }
            }
        }
        let v = clone_bytes(&entries[k].1);
        proof {
            assert(v@ == entries@[k as int].1@);
        }
        res[l_us - 1] = v;
        filled[l_us - 1] = true;
        proof {
            assert(res@[l as int - 1]@ == entries@[k as int].1@);
            assert(forall|k2: int|
                0 <= k2 < k + 1 ==> !#[trigger] entry_bad(keys, n as int, our_i as int, k2));
            assert forall|k2: int| 0 <= k2 < k + 1 implies res@[(#[trigger] entries@[k2]).0 as int
                - 1]@ == entries@[k2].1@ by {
                if k2 < k as int {
                    assert(keys[k2] == entries@[k2].0);
                    assert(!entry_bad(keys, n as int, our_i as int, k2));
                    assert(1 <= keys[k2] as int <= n as int);
                    assert(keys[k2] != keys[k as int]);
                    assert(entries@[k2].0 as int - 1 != l as int - 1);
                    assert(res@[entries@[k2].0 as int - 1]@ == entries@[k2].1@);
                } else {
                    assert(entries@[k2].0 == l);
                    assert(res@[entries@[k2].0 as int - 1]@ == entries@[k2].1@);
                }
            }
            assert forall|j2: int| 0 <= j2 < n as int implies (#[trigger] filled@[j2] <==> (j2
                == our_i as int - 1 || exists|k2: int|
                0 <= k2 < k + 1 && #[trigger] keys[k2] as int == j2 + 1)) by {
                if j2 == l as int - 1 {
                    assert(keys[k as int] as int == j2 + 1);
                }
            }
        }
        k = k + 1;
    }

    proof {
        assert(!some_entry_bad(keys, n as int, our_i as int));
    }

    let mut l: usize = 1;
    while l <= n_us
        invariant
            1 <= l <= n_us + 1,
            n_us == n as int,
            1 <= our_i <= n,
            keys == keys_of(entries@),
            keys.len() == entries@.len(),
            filled@.len() == n as int,
            !some_entry_bad(keys, n as int, our_i as int),
            forall|j2: int|
                0 <= j2 < n as int ==> (#[trigger] filled@[j2] <==> (j2 == our_i as int - 1
                    || covers(keys, j2 + 1))),
            forall|l2: int| 1 <= l2 < l && l2 != our_i as int ==> #[trigger] covers(keys, l2),
        decreases n_us + 1 - l,
    {
        if !filled[l - 1] {
            proof {
                assert(l != our_i as usize);
            }
            return Err(FrostError::MissingParticipant(l as u16));
        }
        l = l + 1;
    }

    proof {
        assert(map_complete(keys, n as int, our_i as int));
        assert forall|j2: int| 0 <= j2 < n as int implies #[trigger] res@[j2]@ == assembled(
            entries@,
            n as int,
            our_i as int,
            ours@,
        )[j2] by {
            if j2 + 1 != our_i as int {
                let lv = j2 + 1;
                assert(covers(keys, lv));
                let kw = choose|kk: int| 0 <= kk < keys.len() && #[trigger] keys[kk] as int == lv;
                assert(entries@[kw].0 as int == lv);
                let kc = choose|kk: int|
                    0 <= kk < entries@.len() && entries@[kk].0 as int == lv;
                assert(keys[kc] as int == lv);
                assert forall|k2: int|
                    0 <= k2 < entries@.len() && #[trigger] keys[k2] as int == lv implies k2 == kc by {
                    if k2 != kc {
                        let hi = if k2 > kc {
                            k2
                        } else {
                            kc
                        };
                        assert(entry_bad(keys, n as int, our_i as int, hi));
                    }
                }
                assert(res@[entries@[kc].0 as int - 1]@ == entries@[kc].1@);
                assert(res@[j2]@ == entries@[kc].1@);
            }
        }
    }
    Ok(res)
}

} // verus!
