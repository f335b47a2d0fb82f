//! Byte-string keys.
//!
//! Host keys, key prefixes, and registration names are binary-safe byte
//! strings. This module gives the exec comparisons the engines match with,
//! and lookup helpers for association lists keyed by byte strings.

use vstd::prelude::*;

verus! {

/// Exact byte-string equality.
pub fn bytes_eq(a: &[u8], b: &[u8]) -> (r: bool)
    ensures
        r == (a@ == b@),
{
    if a.len() != b.len() {
        return false;
    }
    let mut i: usize = 0;
    while i < a.len()
        invariant
            i <= a.len(),
            a@.len() == b@.len(),
            forall|j: int| 0 <= j < i ==> a@[j] == b@[j],
        decreases a.len() - i,
    {
        if a[i] != b[i] {
            return false;
        }
        i = i + 1;
    }
    proof {
        assert(a@ =~= b@);
    }
    true
}

/// Whether `key` starts with `prefix`.
pub fn bytes_starts_with(key: &[u8], prefix: &[u8]) -> (r: bool)
    ensures
        r == prefix@.is_prefix_of(key@),
{
    if prefix.len() > key.len() {
        return false;
    }
    let mut i: usize = 0;
    while i < prefix.len()
        invariant
            i <= prefix.len(),
            prefix@.len() <= key@.len(),
            forall|j: int| 0 <= j < i ==> key@[j] == prefix@[j],
        decreases prefix.len() - i,
    {
        if key[i] != prefix[i] {
            proof {
                assert(key@.subrange(0, prefix@.len() as int)[i as int] != prefix@[i as int]);
            }
            return false;
        }
        i = i + 1;
    }
    proof {
        assert(key@.subrange(0, prefix@.len() as int) =~= prefix@);
    }
    true
}

/// Index of the first pair bound to `key` in an association list.
pub open spec fn find_key<V>(s: Seq<(Seq<u8>, V)>, key: Seq<u8>) -> Option<int>
    decreases s.len(),
{
    if s.len() == 0 {
        None
    } else if s[0].0 == key {
        Some(0int)
    } else {
        match find_key(s.subrange(1, s.len() as int), key) {
            Some(i) => Some(i + 1),
            None => None,
        }
    }
}

/// `find_key` returns the first index bound to `key`, or `None` exactly when
/// no pair is.
pub proof fn lemma_find_key<V>(s: Seq<(Seq<u8>, V)>, key: Seq<u8>)
    ensures
        match find_key(s, key) {
            Some(k) => 0 <= k < s.len() && s[k].0 == key && (forall|i: int|
                0 <= i < k ==> (#[trigger] s[i]).0 != key),
            None => forall|i: int| 0 <= i < s.len() ==> (#[trigger] s[i]).0 != key,
        },
    decreases s.len(),
{
    if s.len() > 0 && s[0].0 != key {
        let rest = s.subrange(1, s.len() as int);
        lemma_find_key(rest, key);
        match find_key(rest, key) {
            Some(i) => {
                assert(rest[i] == s[i + 1]);
                assert forall|j: int| 0 <= j < i + 1 implies (#[trigger] s[j]).0 != key by {
                    if j > 0 {
                        assert(rest[j - 1] == s[j]);
                    }
                }
            },
            None => {
                assert forall|j: int| 0 <= j < s.len() implies (#[trigger] s[j]).0 != key by {
                    if j > 0 {
                        assert(rest[j - 1] == s[j]);
                    }
                }
            },
        }
    }
}

/// `find_key` lands on `k` when `k` holds the key and nothing before it does.
pub proof fn lemma_find_key_at<V>(s: Seq<(Seq<u8>, V)>, key: Seq<u8>, k: int)
    requires
        0 <= k < s.len(),
        s[k].0 == key,
        forall|i: int| 0 <= i < k ==> (#[trigger] s[i]).0 != key,
    ensures
        find_key(s, key) == Some(k),
{
    lemma_find_key(s, key);
    match find_key(s, key) {
        Some(f) => {
            if f < k {
                assert(s[f].0 != key);
            }
            if k < f {
                assert(s[k].0 != key);
            }
        },
        None => {
            assert(s[k].0 != key);
        },
    }
}

/// Exec lookup in an association list: the first index bound to `key`.
pub fn find_key_exec<V>(v: &Vec<(Vec<u8>, V)>, key: &[u8]) -> (r: Option<usize>)
    ensures
        match r {
            Some(k) => k < v@.len() && v@[k as int].0@ == key@ && (forall|i: int|
                0 <= i < k ==> (#[trigger] v@[i]).0@ != key@),
            None => forall|i: int| 0 <= i < v@.len() ==> (#[trigger] v@[i]).0@ != key@,
        },
{
    let mut k: usize = 0;
    while k < v.len()
        invariant
            k <= v@.len(),
            forall|i: int| 0 <= i < k ==> (#[trigger] v@[i]).0@ != key@,
        decreases v@.len() - k,
    {
        if bytes_eq(v[k].0.as_slice(), key) {
            return Some(k);
        }
        k = k + 1;
    }
    None
}

} // verus!
