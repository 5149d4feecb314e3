//! Options of the validator that are read from its command line: the
//! secondary account indexes to keep, and sets of other validators.

use vstd::prelude::*;
use crate::blockstore_options::str_equal;
use crate::pubkey::Pubkey;

verus! {

/// A secondary index over accounts.
#[derive(Clone, Copy, Debug, PartialEq, Eq, Hash, Structural)]
pub enum AccountIndex {
    ProgramId,
    SplTokenOwner,
    SplTokenMint,
}

/// The name of an index on the command line.
pub open spec fn index_named(name: Seq<char>) -> Option<AccountIndex> {
    if name == "program-id"@ {
        Some(AccountIndex::ProgramId)
    } else if name == "spl-token-mint"@ {
        Some(AccountIndex::SplTokenMint)
    } else if name == "spl-token-owner"@ {
        Some(AccountIndex::SplTokenOwner)
    } else {
        None
    }
}

/// The index named `name`; the command line accepts only these names.
pub fn parse_account_index(name: &str) -> (r: AccountIndex)
    requires
        index_named(name@) is Some,
    ensures
        index_named(name@) == Some(r),
{
    if str_equal(name, "program-id") {
        AccountIndex::ProgramId
    } else if str_equal(name, "spl-token-mint") {
        AccountIndex::SplTokenMint
    } else {
        proof {
            reveal_strlit("program-id");
            reveal_strlit("spl-token-mint");
            reveal_strlit("spl-token-owner");
        }
        AccountIndex::SplTokenOwner
    }
}

/// Which account keys the indexes cover: only `keys`, or all but `keys`.
#[derive(Clone, Debug, PartialEq, Eq)]
pub struct AccountSecondaryIndexesIncludeExclude {
    pub exclude: bool,
    /// Each key once.
    pub keys: Vec<Pubkey>,
}

/// The secondary indexes to keep, and the keys they cover.
#[derive(Clone, Debug, PartialEq, Eq)]
pub struct AccountSecondaryIndexes {
    pub keys: Option<AccountSecondaryIndexesIncludeExclude>,
    /// Each index once.
    pub indexes: Vec<AccountIndex>,
}

/// `s` holds the elements of `from`, each once.
pub open spec fn same_elements<T>(s: Seq<T>, from: Seq<T>) -> bool {
    &&& s.no_duplicates()
    &&& forall|x: T| #[trigger] s.contains(x) <==> from.contains(x)
}

/// The elements of `items`, each once, in the order they first come.
fn distinct_keys(items: &[Pubkey]) -> (r: Vec<Pubkey>)
    ensures
        same_elements(r@, items@),
{
    let mut out: Vec<Pubkey> = Vec::new();
    let mut i: usize = 0;
    while i < items.len()
        invariant
            i <= items@.len(),
            same_elements(out@, items@.take(i as int)),
        decreases items@.len() - i,
    {
        let x = items[i];
        let mut seen = false;
        let mut j: usize = 0;
        while j < out.len()
            invariant
                j <= out@.len(),
                seen == (exists|q: int| 0 <= q < j && out@[q] == x),
            decreases out@.len() - j,
        {
            if out[j].same_as(&x) {
                seen = true;
            }
            j += 1;
        }
        let ghost before = out@;
        if !seen {
            out.push(x);
        }
        proof {
            let t = items@.take(i as int);
            let t1 = items@.take(i + 1);
            assert(t1 =~= t.push(x));
            assert forall|y: Pubkey| #[trigger] out@.contains(y) <==> t1.contains(y) by {
                if t1.contains(y) {
                    let q = choose|q: int| 0 <= q < t1.len() && t1[q] == y;
                    if q < i {
                        assert(t.contains(y));
                    }
                }
                if t.contains(y) {
                    let q = choose|q: int| 0 <= q < t.len() && t[q] == y;
                    assert(t1[q] == y);
                }
                if y == x {
                    assert(t1[i as int] == x);
                }
                if out@.contains(y) && !before.contains(y) {
                    assert(out@[before.len() as int] == x);
                    let q = choose|q: int| 0 <= q < out@.len() && out@[q] == y;
                    assert(q == before.len());
                }
                if before.contains(y) {
                    let q = choose|q: int| 0 <= q < before.len() && before[q] == y;
                    assert(out@[q] == y);
                }
            }
            if !seen {
                assert forall|a: int, b: int| 0 <= a < out@.len() && 0 <= b < out@.len() && a != b implies out@[a] != out@[b] by {
                    if a == before.len() {
                        assert(before[b] == out@[b]);
                    } else if b == before.len() {
                        assert(before[a] == out@[a]);
                    } else {
                        assert(before[a] == out@[a] && before[b] == out@[b]);
                    }
                }
            }
        }
        i += 1;
    }
    assert(items@.take(items@.len() as int) =~= items@);
    out
}

/// The indexes named in `names`, each once.
fn named_indexes(names: &[&str]) -> (r: Vec<AccountIndex>)
    requires
        forall|i: int| 0 <= i < names@.len() ==> index_named((#[trigger] names@[i])@) is Some,
    ensures
        r@.no_duplicates(),
        forall|ix: AccountIndex| #[trigger] r@.contains(ix) <==> exists|i: int| 0 <= i < names@.len() && index_named(names@[i]@) == Some(ix),
{
    let mut out: Vec<AccountIndex> = Vec::new();
    let mut i: usize = 0;
    while i < names.len()
        invariant
            i <= names@.len(),
            forall|i: int| 0 <= i < names@.len() ==> index_named((#[trigger] names@[i])@) is Some,
            out@.no_duplicates(),
            forall|ix: AccountIndex| #[trigger] out@.contains(ix) <==> exists|q: int| 0 <= q < i && index_named(names@[q]@) == Some(ix),
        decreases names@.len() - i,
    {
        let ix = parse_account_index(names[i]);
        let mut seen = false;
        let mut j: usize = 0;
        while j < out.len()
            invariant
                j <= out@.len(),
                seen == (exists|q: int| 0 <= q < j && out@[q] == ix),
            decreases out@.len() - j,
        {
            if out[j] == ix {
                seen = true;
            }
            j += 1;
        }
        let ghost before = out@;
        if !seen {
            out.push(ix);
        }
        proof {
            assert forall|y: AccountIndex| #[trigger] out@.contains(y) <==> exists|q: int| 0 <= q < i + 1 && index_named(names@[q]@) == Some(y) by {
                if exists|q: int| 0 <= q < i + 1 && index_named(names@[q]@) == Some(y) {
                    let q = choose|q: int| 0 <= q < i + 1 && index_named(names@[q]@) == Some(y);
                    if q < i {
                        assert(before.contains(y));
                        let p = choose|p: int| 0 <= p < before.len() && before[p] == y;
                        assert(out@[p] == y);
                    } else if !seen {
                        assert(out@[before.len() as int] == y);
                    } else {
                        let p = choose|p: int| 0 <= p < before.len() && before[p] == ix;
                        assert(out@[p] == y);
                    }
                }
                if out@.contains(y) {
                    let p = choose|p: int| 0 <= p < out@.len() && out@[p] == y;
                    if p < before.len() {
                        assert(before.contains(y));
                    } else {
                        assert(index_named(names@[i as int]@) == Some(y));
                    }
                }
            }
            if !seen {
                assert forall|a: int, b: int| 0 <= a < out@.len() && 0 <= b < out@.len() && a != b implies out@[a] != out@[b] by {
                    if a == before.len() {
                        assert(before[b] == out@[b]);
                    } else if b == before.len() {
                        assert(before[a] == out@[a]);
                    } else {
                        assert(before[a] == out@[a] && before[b] == out@[b]);
                    }
                }
            }
        }
        i += 1;
    }
    out
}

/// The secondary indexes from the command line: the indexes named, and,
/// when there are any and keys are given, the keys they cover: all but
/// the excluded keys when some are excluded (the included ones are then
/// ignored), else only the included keys.
pub fn process_account_indexes(names: &[&str], include_keys: &[Pubkey], exclude_keys: &[Pubkey]) -> (r: AccountSecondaryIndexes)
    requires
        forall|i: int| 0 <= i < names@.len() ==> index_named((#[trigger] names@[i])@) is Some,
    ensures
        r.indexes@.no_duplicates(),
        forall|ix: AccountIndex| #[trigger] r.indexes@.contains(ix) <==> exists|i: int| 0 <= i < names@.len() && index_named(names@[i]@) == Some(ix),
        match r.keys {
            None => names@.len() == 0 || (include_keys@.len() == 0 && exclude_keys@.len() == 0),
            Some(k) => {
                &&& names@.len() > 0
                &&& k.exclude == (exclude_keys@.len() > 0)
                &&& same_elements(k.keys@, if k.exclude { exclude_keys@ } else { include_keys@ })
                &&& !k.exclude ==> include_keys@.len() > 0
            },
        },
{
    let indexes = named_indexes(names);
    let exclude = exclude_keys.len() > 0;
    let including = include_keys.len() > 0;
    proof {
        if names@.len() > 0 {
            assert(indexes@.contains(index_named(names@[0]@)->0));
        }
        if indexes@.len() > 0 {
            assert(indexes@.contains(indexes@[0]));
        }
    }
    let keys = if indexes.len() > 0 && (exclude || including) {
        Some(AccountSecondaryIndexesIncludeExclude {
            exclude,
            keys: if exclude { distinct_keys(exclude_keys) } else { distinct_keys(include_keys) },
        })
    } else {
        None
    };
    AccountSecondaryIndexes { keys, indexes }
}

/// A set of validators given on the command line holds the validator's
/// own identity.
#[derive(Clone, Copy, Debug, PartialEq, Eq)]
pub struct IdentityInValidatorsSet;

/// The set of validators given on the command line, if one is given: each
/// key once. Refused when it holds the validator's own identity.
pub fn validators_set(identity_pubkey: &Pubkey, given: Option<&[Pubkey]>) -> (r: Result<Option<Vec<Pubkey>>, IdentityInValidatorsSet>)
    ensures
        match given {
            None => r == Ok::<Option<Vec<Pubkey>>, IdentityInValidatorsSet>(None),
            Some(keys) => if keys@.contains(*identity_pubkey) {
                r == Err::<Option<Vec<Pubkey>>, IdentityInValidatorsSet>(IdentityInValidatorsSet)
            } else {
                r matches Ok(Some(set)) && same_elements(set@, keys@)
            },
        },
{
    match given {
        None => Ok(None),
        Some(keys) => {
            let set = distinct_keys(keys);
            let mut j: usize = 0;
            while j < set.len()
                invariant
                    given == Some(keys),
                    same_elements(set@, keys@),
                    j <= set@.len(),
                    forall|q: int| 0 <= q < j ==> set@[q] != *identity_pubkey,
                decreases set@.len() - j,
            {
                if set[j].same_as(identity_pubkey) {
                    proof {
                        assert(set@.contains(set@[j as int]));
                    }
                    return Err(IdentityInValidatorsSet);
                }
                j += 1;
            }
            proof {
                if keys@.contains(*identity_pubkey) {
                    assert(set@.contains(*identity_pubkey));
                }
            }
            Ok(Some(set))
        },
    }
}

} // verus!
