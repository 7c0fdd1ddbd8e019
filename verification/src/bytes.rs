use vstd::prelude::*;

verus! {

/// How many bytes of `s` precede the first `b`: all of them where `b` does not
/// occur.
pub open spec fn prefix_len(s: Seq<u8>, b: u8) -> int
    decreases s.len(),
{
    if s.len() == 0 || s[0] == b {
        0
    } else {
        1 + prefix_len(s.skip(1), b)
    }
}

pub proof fn lemma_prefix_len(s: Seq<u8>, b: u8)
    ensures
        0 <= prefix_len(s, b) <= s.len(),
        prefix_len(s, b) < s.len() ==> s[prefix_len(s, b)] == b,
        forall|i: int| 0 <= i < prefix_len(s, b) ==> s[i] != b,
    decreases s.len(),
{
    if s.len() > 0 && s[0] != b {
        let t = s.skip(1);
        lemma_prefix_len(t, b);
        assert forall|i: int| 0 <= i < prefix_len(s, b) implies s[i] != b by {
            if i > 0 {
                assert(t[i - 1] == s[i]);
            }
        }
    }
}

/// What precedes the first `b` of `s` reaches up to it, or to the end of `s` where
/// there is none.
pub proof fn law_prefix_ends_at_first(s: Seq<u8>, b: u8, n: int)
    requires
        0 <= n <= s.len(),
        n < s.len() ==> s[n] == b,
        forall|i: int| 0 <= i < n ==> s[i] != b,
    ensures
        prefix_len(s, b) == n,
{
    lemma_prefix_len(s, b);
    let m = prefix_len(s, b);
    if m < n {
        assert(s[m] != b);
    }
}

/// Counts the bytes of `s` that precede the first `b`.
pub fn count_until(s: &[u8], b: u8) -> (n: usize)
    ensures
        n == prefix_len(s@, b),
        n <= s@.len(),
{
    let mut n: usize = 0;
    while n < s.len() && s[n] != b
        invariant
            n <= s.len(),
            forall|i: int| 0 <= i < n ==> s@[i] != b,
        decreases s.len() - n,
    {
        n += 1;
    }
    proof {
        lemma_prefix_len(s@, b);
    }
    n
}

/// Whether `a` and `b` hold the same bytes.
pub fn same_bytes(a: &[u8], b: &[u8]) -> (same: bool)
    ensures
        same == (a@ == b@),
{
    if a.len() != b.len() {
        return false;
    }
    let mut i: usize = 0;
    while i < a.len()
        invariant
            i <= a.len(),
            a.len() == b.len(),
            forall|j: int| 0 <= j < i ==> a@[j] == b@[j],
        decreases a.len() - i,
    {
        if a[i] != b[i] {
            return false;
        }
        i += 1;
    }
    assert(a@ =~= b@);
    true
}

/// The bytes of `s` on their own.
pub fn copied(s: &[u8]) -> (bytes: Vec<u8>)
    ensures
        bytes@ == s@,
{
    let mut bytes: Vec<u8> = Vec::new();
    bytes.extend_from_slice(s);
    assert(bytes@ =~= s@);
    bytes
}

} // verus!
