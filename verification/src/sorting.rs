use vstd::prelude::*;

verus! {

/// Swapping two positions of a sequence leaves its multiset of elements as it was.
pub proof fn lemma_swap_to_multiset<A>(s: Seq<A>, i: int, j: int)
    requires
        0 <= i < s.len(),
        0 <= j < s.len(),
    ensures
        s.update(i, s[j]).update(j, s[i]).to_multiset() == s.to_multiset(),
{
    broadcast use vstd::seq_lib::to_multiset_update;
    broadcast use vstd::seq_lib::group_to_multiset_ensures;

    if i == j {
        assert(s.update(i, s[j]).update(j, s[i]) =~= s);
    } else {
        let s1 = s.update(i, s[j]);
        let s2 = s1.update(j, s[i]);
        assert(s1[j] == s[j]);
        assert(s1.to_multiset() == s.to_multiset().remove(s[i]).insert(s[j]));
        assert(s2.to_multiset() == s1.to_multiset().remove(s1[j]).insert(s[i]));
        assert(s2.to_multiset() =~= s.to_multiset()) by {
            assert forall|a: A|
                s.to_multiset().remove(s[i]).insert(s[j]).remove(s[j]).insert(s[i]).count(a)
                    == s.to_multiset().count(a) by {}
        }
    }
}

/// A sequence of bytes is ascending.
pub open spec fn sorted_u8(s: Seq<u8>) -> bool {
    forall|a: int, b: int| 0 <= a < b < s.len() ==> s[a] <= s[b]
}

/// A sequence of 64-bit values is ascending.
pub open spec fn sorted_u64(s: Seq<u64>) -> bool {
    forall|a: int, b: int| 0 <= a < b < s.len() ==> s[a] <= s[b]
}

/// Sort a byte vector ascending by selection of the minimum.
pub fn sort_u8(v: &mut Vec<u8>)
    ensures
        final(v)@.len() == old(v)@.len(),
        final(v)@.to_multiset() == old(v)@.to_multiset(),
        sorted_u8(final(v)@),
{
    let n: usize = v.len();
    let mut i: usize = 0;
    while i < n
        invariant
            v@.len() == n,
            i <= n,
            v@.to_multiset() == old(v)@.to_multiset(),
            forall|a: int, b: int| 0 <= a < b < i ==> v@[a] <= v@[b],
            forall|a: int, b: int| 0 <= a < i && i <= b < n ==> v@[a] <= v@[b],
        decreases n - i,
    {
        let mut m: usize = i;
        let mut j: usize = i + 1;
        while j < n
            invariant
                i < n,
                i <= m < j,
                j <= n,
                v@.len() == n,
                forall|t: int| i <= t < j ==> v@[m as int] <= v@[t],
            decreases n - j,
        {
            if v[j] < v[m] {
                m = j;
            }
            j = j + 1;
        }
        let ghost s0 = v@;
        let vi: u8 = v[i];
        let vm: u8 = v[m];
        v[i] = vm;
        v[m] = vi;
        proof {
            lemma_swap_to_multiset(s0, i as int, m as int);
            assert(v@ =~= s0.update(i as int, s0[m as int]).update(m as int, s0[i as int]));
        }
        i = i + 1;
    }
}

/// Sort a vector of 64-bit values ascending by selection of the minimum.
pub fn sort_u64(v: &mut Vec<u64>)
    ensures
        final(v)@.len() == old(v)@.len(),
        final(v)@.to_multiset() == old(v)@.to_multiset(),
        sorted_u64(final(v)@),
{
    let n: usize = v.len();
    let mut i: usize = 0;
    while i < n
        invariant
            v@.len() == n,
            i <= n,
            v@.to_multiset() == old(v)@.to_multiset(),
            forall|a: int, b: int| 0 <= a < b < i ==> v@[a] <= v@[b],
            forall|a: int, b: int| 0 <= a < i && i <= b < n ==> v@[a] <= v@[b],
        decreases n - i,
    {
        let mut m: usize = i;
        let mut j: usize = i + 1;
        while j < n
            invariant
                i < n,
                i <= m < j,
                j <= n,
                v@.len() == n,
                forall|t: int| i <= t < j ==> v@[m as int] <= v@[t],
            decreases n - j,
        {
            if v[j] < v[m] {
                m = j;
            }
            j = j + 1;
        }
        let ghost s0 = v@;
        let vi: u64 = v[i];
        let vm: u64 = v[m];
        v[i] = vm;
        v[m] = vi;
        proof {
            lemma_swap_to_multiset(s0, i as int, m as int);
            assert(v@ =~= s0.update(i as int, s0[m as int]).update(m as int, s0[i as int]));
        }
        i = i + 1;
    }
}

} // verus!
