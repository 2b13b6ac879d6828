//! Sets of positions held as one flag per position.
use vstd::prelude::*;
use vstd::arithmetic::power2::pow2;
use vstd::set_lib::{lemma_int_range, lemma_len_subset, set_int_range};

verus! {

/// The positions whose flag is set.
pub open spec fn members(b: Seq<bool>) -> Set<nat> {
    Set::new(|p: nat| p < b.len() && b[p as int])
}

/// The flags read as a binary number, lowest position first.
pub open spec fn encode(b: Seq<bool>) -> nat
    decreases b.len(),
{
    if b.len() == 0 {
        0
    } else {
        (if b[0] {
            1nat
        } else {
            0nat
        }) + 2 * encode(b.drop_first())
    }
}

proof fn lemma_encode_bound(b: Seq<bool>)
    ensures
        encode(b) < pow2(b.len()),
    decreases b.len(),
{
    if b.len() > 0 {
        lemma_encode_bound(b.drop_first());
        vstd::arithmetic::power2::lemma_pow2_unfold(b.len());
    } else {
        vstd::arithmetic::power2::lemma_pow2_pos(0);
    }
}

proof fn lemma_encode_injective(a: Seq<bool>, b: Seq<bool>)
    requires
        a.len() == b.len(),
        encode(a) == encode(b),
    ensures
        a == b,
    decreases a.len(),
{
    if a.len() > 0 {
        assert(a[0] == b[0]);
        lemma_encode_injective(a.drop_first(), b.drop_first());
        assert(a =~= seq![a[0]] + a.drop_first());
        assert(b =~= seq![b[0]] + b.drop_first());
    } else {
        assert(a =~= b);
    }
}

/// Flag sequences of one length that hold the same positions are equal.
pub proof fn lemma_members_determine(a: Seq<bool>, b: Seq<bool>)
    requires
        a.len() == b.len(),
        members(a) == members(b),
    ensures
        a == b,
{
    assert forall|i: int| 0 <= i < a.len() implies a[i] == b[i] by {
        assert(members(a).contains(i as nat) == a[i]);
        assert(members(b).contains(i as nat) == b[i]);
    }
    assert(a =~= b);
}

/// There are at most `2^n` distinct flag sequences of length `n`.
pub proof fn lemma_distinct_bound(s: Seq<Seq<bool>>, n: nat)
    requires
        forall|i: int| 0 <= i < s.len() ==> (#[trigger] s[i]).len() == n,
        forall|i: int, j: int| 0 <= i < j < s.len() ==> s[i] != s[j],
    ensures
        s.len() <= pow2(n),
{
    let e = s.map_values(|b: Seq<bool>| encode(b) as int);
    assert forall|i: int, j: int| 0 <= i < e.len() && 0 <= j < e.len() && i != j implies e[i]
        != e[j] by {
        if e[i] == e[j] {
            lemma_encode_injective(s[i], s[j]);
            if i < j {
                assert(s[i] != s[j]);
            } else {
                assert(s[j] != s[i]);
            }
        }
    }
    assert(e.no_duplicates());
    e.unique_seq_to_set();
    assert forall|x: int| e.to_set().contains(x) implies set_int_range(0, pow2(n) as int).contains(
        x,
    ) by {
        let i = choose|i: int| 0 <= i < e.len() && e[i] == x;
        lemma_encode_bound(s[i]);
    }
    lemma_int_range(0, pow2(n) as int);
    lemma_len_subset(e.to_set(), set_int_range(0, pow2(n) as int));
}

/// A set of `n` positions with nothing in it.
pub fn empty_bits(n: usize) -> (r: Vec<bool>)
    ensures
        r@.len() == n,
        members(r@) == Set::<nat>::empty(),
{
    let mut r: Vec<bool> = Vec::new();
    let mut i: usize = 0;
    while i < n
        invariant
            i <= n,
            r@.len() == i,
            forall|j: int| 0 <= j < i ==> !r@[j],
        decreases n - i,
    {
        r.push(false);
        i += 1;
    }
    assert(members(r@) =~= Set::<nat>::empty());
    r
}

/// The positions in `a` or in `b`.
pub fn union_bits(a: &Vec<bool>, b: &Vec<bool>) -> (r: Vec<bool>)
    requires
        a@.len() == b@.len(),
    ensures
        r@.len() == a@.len(),
        members(r@) == members(a@) + members(b@),
{
    let mut r: Vec<bool> = Vec::new();
    let mut i: usize = 0;
    while i < a.len()
        invariant
            a@.len() == b@.len(),
            i <= a@.len(),
            r@.len() == i,
            forall|j: int| 0 <= j < i ==> r@[j] == (a@[j] || b@[j]),
        decreases a@.len() - i,
    {
        r.push(a[i] || b[i]);
        i += 1;
    }
    assert forall|p: nat| #[trigger] members(r@).contains(p) == (members(a@) + members(
        b@,
    )).contains(p) by {
        if p < a@.len() {
            assert(r@[p as int] == (a@[p as int] || b@[p as int]));
        }
    }
    assert(members(r@) =~= members(a@) + members(b@));
    r
}

/// A copy of the flags.
pub fn copy_bits(a: &Vec<bool>) -> (r: Vec<bool>)
    ensures
        r@ == a@,
{
    let mut r: Vec<bool> = Vec::new();
    let mut i: usize = 0;
    while i < a.len()
        invariant
            i <= a@.len(),
            r@ == a@.subrange(0, i as int),
        decreases a@.len() - i,
    {
        r.push(a[i]);
        i += 1;
    }
    assert(r@ =~= a@);
    r
}

/// Whether no flag is set.
pub fn is_empty_bits(a: &Vec<bool>) -> (r: bool)
    ensures
        r == (members(a@) == Set::<nat>::empty()),
{
    let mut i: usize = 0;
    while i < a.len()
        invariant
            i <= a@.len(),
            forall|j: int| 0 <= j < i ==> !a@[j],
        decreases a@.len() - i,
    {
        if a[i] {
            assert(members(a@).contains(i as nat));
            return false;
        }
        i += 1;
    }
    assert(members(a@) =~= Set::<nat>::empty());
    true
}

/// Whether two flag sequences are equal.
pub fn same_bits(a: &Vec<bool>, b: &Vec<bool>) -> (r: bool)
    ensures
        r == (a@ == b@),
{
    if a.len() != b.len() {
        return false;
    }
    let mut i: usize = 0;
    while i < a.len()
        invariant
            a@.len() == b@.len(),
            i <= a@.len(),
            forall|j: int| 0 <= j < i ==> a@[j] == b@[j],
        decreases a@.len() - i,
    {
        if a[i] != b[i] {
            return false;
        }
        i += 1;
    }
    assert(a@ =~= b@);
    true
}

} // verus!
