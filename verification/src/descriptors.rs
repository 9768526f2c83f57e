//! Bookkeeping of file descriptors that a message brought in.
//!
//! A descriptor that came in with a message is owed to exactly one message
//! that goes out, or it is closed. When an interception hook has had its say,
//! the descriptors of what it hands back are claimed, one by one, from those
//! that came in; what nobody claimed is left over for closing.

use vstd::prelude::*;
use vstd::multiset::Multiset;
use vstd::seq_lib::{to_multiset_build, to_multiset_remove};

verus! {

/// Position of the first `fd` in `pool`; the length of `pool` when it holds none.
pub open spec fn position(pool: Seq<i32>, fd: i32) -> int
    decreases pool.len(),
{
    if pool.len() == 0 {
        0
    } else if pool[0] == fd {
        0
    } else {
        1 + position(pool.drop_first(), fd)
    }
}

/// What is left of `pool` when each descriptor of `claimed` has taken its
/// first match out of it; `None` when one of them finds no match.
pub open spec fn without(pool: Seq<i32>, claimed: Seq<i32>) -> Option<Seq<i32>>
    decreases claimed.len(),
{
    if claimed.len() == 0 {
        Some(pool)
    } else {
        let at = position(pool, claimed[0]);
        if at >= pool.len() {
            None
        } else {
            without(pool.remove(at), claimed.drop_first())
        }
    }
}

/// The position of a descriptor lies in the pool exactly when the pool holds it,
/// and then the descriptor is found there and nowhere before.
pub proof fn lemma_position(pool: Seq<i32>, fd: i32)
    ensures
        0 <= position(pool, fd) <= pool.len(),
        position(pool, fd) < pool.len() ==> pool[position(pool, fd)] == fd,
        position(pool, fd) < pool.len() <==> pool.contains(fd),
        forall|i: int| 0 <= i < position(pool, fd) ==> pool[i] != fd,
    decreases pool.len(),
{
    if pool.len() > 0 && pool[0] != fd {
        let rest = pool.drop_first();
        lemma_position(rest, fd);
        if rest.contains(fd) {
            let i = choose|i: int| 0 <= i < rest.len() && rest[i] == fd;
            assert(pool[i + 1] == fd);
        }
        if pool.contains(fd) {
            let i = choose|i: int| 0 <= i < pool.len() && pool[i] == fd;
            assert(rest[i - 1] == fd);
        }
        assert forall|i: int| 0 <= i < position(pool, fd) implies pool[i] != fd by {
            if i > 0 {
                assert(rest[i - 1] != fd);
            }
        }
    } else if pool.len() > 0 {
        assert(pool[0] == fd);
    }
}

/// No descriptors make the empty multiset.
pub proof fn lemma_empty_bag(s: Seq<i32>)
    requires
        s.len() == 0,
    ensures
        s.to_multiset() == Multiset::<i32>::empty(),
{
    s.to_multiset_ensures();
    assert(s.to_multiset() =~= Multiset::<i32>::empty()) by {
        broadcast use vstd::multiset::group_multiset_axioms;

        assert(s.to_multiset().len() == 0);
    }
}

/// The multiset of a sequence is that of its tail with its head put in.
pub proof fn lemma_bag_first(s: Seq<i32>)
    requires
        s.len() > 0,
    ensures
        s.to_multiset() == s.drop_first().to_multiset().insert(s[0]),
{
    to_multiset_remove(s, 0);
    assert(s.remove(0) =~= s.drop_first());
    s.to_multiset_ensures();
    assert(s.contains(s[0]));
    assert(s.to_multiset() =~= s.drop_first().to_multiset().insert(s[0]));
}

/// Nothing is lost and nothing is doubled: the pool is what was claimed and what is left.
pub proof fn lemma_without_conserves(pool: Seq<i32>, claimed: Seq<i32>)
    requires
        without(pool, claimed) is Some,
    ensures
        pool.to_multiset() == claimed.to_multiset().add(without(pool, claimed)->0.to_multiset()),
    decreases claimed.len(),
{
    if claimed.len() == 0 {
        lemma_empty_bag(claimed);
        assert(pool.to_multiset() =~= claimed.to_multiset().add(pool.to_multiset()));
    } else {
        let fd = claimed[0];
        let at = position(pool, fd);
        lemma_position(pool, fd);
        let smaller = pool.remove(at);
        lemma_without_conserves(smaller, claimed.drop_first());
        to_multiset_remove(pool, at);
        lemma_bag_first(claimed);
        pool.to_multiset_ensures();
        let rest = without(pool, claimed)->0;
        assert(pool.contains(fd));
        assert(pool.to_multiset().count(fd) > 0);
        assert(smaller.to_multiset() == pool.to_multiset().remove(fd));
        assert(pool.to_multiset() =~= smaller.to_multiset().insert(fd)) by {
            broadcast use vstd::multiset::group_multiset_axioms;

        }
        assert(pool.to_multiset() =~= claimed.to_multiset().add(rest.to_multiset())) by {
            broadcast use vstd::multiset::group_multiset_axioms;

        }
    }
}

/// When every descriptor that came in goes out again, in the same order, nothing is left.
pub proof fn lemma_without_self(pool: Seq<i32>)
    ensures
        without(pool, pool) == Some(Seq::<i32>::empty()),
    decreases pool.len(),
{
    if pool.len() > 0 {
        assert(position(pool, pool[0]) == 0);
        assert(pool.remove(0) =~= pool.drop_first());
        lemma_without_self(pool.drop_first());
    } else {
        assert(pool =~= Seq::<i32>::empty());
    }
}

/// Index of the first `fd` in `pool`, or the length of `pool`.
fn find(pool: &Vec<i32>, fd: i32) -> (at: usize)
    ensures
        at == position(pool@, fd),
        at <= pool@.len(),
{
    let mut i: usize = 0;
    assert(pool@.skip(0) =~= pool@);
    while i < pool.len()
        invariant
            i <= pool.len(),
            position(pool@, fd) == i + position(pool@.skip(i as int), fd),
        decreases pool.len() - i,
    {
        assert(pool@.skip(i as int)[0] == pool@[i as int]);
        assert(pool@.skip(i as int).drop_first() =~= pool@.skip(i as int + 1));
        if pool[i] == fd {
            return i;
        }
        i = i + 1;
    }
    assert(pool@.skip(i as int) =~= Seq::<i32>::empty());
    i
}

/// Claims each descriptor of `claimed` from `pool` and returns what is left,
/// or `None` when `claimed` holds a descriptor that `pool` does not have for it.
pub fn settle(pool: &Vec<i32>, claimed: &Vec<i32>) -> (r: Option<Vec<i32>>)
    ensures
        match without(pool@, claimed@) {
            Some(rest) => r matches Some(left) && left@ == rest,
            None => r is None,
        },
{
    let mut left: Vec<i32> = Vec::new();
    let mut n: usize = 0;
    while n < pool.len()
        invariant
            n <= pool.len(),
            left@ == pool@.take(n as int),
        decreases pool.len() - n,
    {
        left.push(pool[n]);
        assert(left@ =~= pool@.take(n as int + 1));
        n = n + 1;
    }
    assert(pool@.take(n as int) =~= pool@);
    let mut i: usize = 0;
    assert(claimed@.skip(0) =~= claimed@);
    while i < claimed.len()
        invariant
            i <= claimed.len(),
            without(pool@, claimed@) == without(left@, claimed@.skip(i as int)),
        decreases claimed.len() - i,
    {
        assert(claimed@.skip(i as int)[0] == claimed@[i as int]);
        assert(claimed@.skip(i as int).drop_first() =~= claimed@.skip(i as int + 1));
        let at = find(&left, claimed[i]);
        if at >= left.len() {
            return None;
        }
        left.remove(at);
        i = i + 1;
    }
    assert(claimed@.skip(i as int) =~= Seq::<i32>::empty());
    Some(left)
}

} // verus!
