//! Adjacency lists: for each key, the peers it is linked to, each at most once.

use vstd::prelude::*;

verus! {

/// What can stand as a node of a graph: a value that is told apart from others, and copied, by
/// its view.
pub trait Node: View + Sized {
    /// Whether the two nodes are the same.
    fn same(&self, other: &Self) -> (r: bool)
        ensures
            r == (self@ == other@),
    ;

    /// Another value for the same node.
    fn duplicate(&self) -> (r: Self)
        ensures
            r@ == self@,
    ;
}

impl Node for String {
    fn same(&self, other: &Self) -> (r: bool) {
        *self == *other
    }

    fn duplicate(&self) -> (r: Self) {
        self.clone()
    }
}

impl<'a> Node for &'a str {
    fn same(&self, other: &Self) -> (r: bool) {
        let left: String = (*self).to_owned();
        let right: String = (*other).to_owned();
        left == right
    }

    fn duplicate(&self) -> (r: Self) {
        *self
    }
}

/// One key with the peers it is linked to.
pub(crate) struct Adjacency<T> {
    pub(crate) node: T,
    pub(crate) peers: Vec<T>,
}

/// The entry at `i` is the one of the key `k`.
pub(crate) open spec fn key_at<T: Node>(s: Seq<Adjacency<T>>, i: int, k: T::V) -> bool {
    0 <= i < s.len() && s[i].node@ == k
}

/// The entry at `i` is the one of the key `k`, and its peer at `j` is `p`.
pub(crate) open spec fn link_at<T: Node>(
    s: Seq<Adjacency<T>>,
    i: int,
    j: int,
    k: T::V,
    p: T::V,
) -> bool {
    key_at(s, i, k) && 0 <= j < s[i].peers@.len() && s[i].peers@[j]@ == p
}

/// The keys of an adjacency list.
pub(crate) open spec fn keys<T: Node>(s: Seq<Adjacency<T>>) -> Set<T::V> {
    Set::new(|k: T::V| exists|i: int| key_at(s, i, k))
}

/// The pairs of a key and one of its peers.
pub(crate) open spec fn links<T: Node>(s: Seq<Adjacency<T>>) -> Set<(T::V, T::V)> {
    Set::new(|e: (T::V, T::V)| exists|i: int, j: int| link_at(s, i, j, e.0, e.1))
}

/// No key has two entries, and no entry names a peer twice.
pub(crate) open spec fn adjacency_wf<T: Node>(s: Seq<Adjacency<T>>) -> bool {
    &&& forall|i: int, j: int|
        0 <= i < s.len() && 0 <= j < s.len() && (#[trigger] s[i]).node@ == (#[trigger] s[j]).node@
            ==> i == j
    &&& forall|i: int, j: int, k: int|
        0 <= i < s.len() && 0 <= j < s[i].peers@.len() && 0 <= k < s[i].peers@.len() && (
        #[trigger] s[i].peers@[j])@ == (#[trigger] s[i].peers@[k])@ ==> j == k
}

/// The position of the first entry of a list that is the given node.
pub(crate) fn position<T: Node>(list: &Vec<T>, node: &T) -> (r: Option<usize>)
    ensures
        match r {
            Some(i) => i < list@.len() && list@[i as int]@ == node@,
            None => forall|i: int| 0 <= i < list@.len() ==> (#[trigger] list@[i])@ != node@,
        },
{
    let mut i: usize = 0;
    while i < list.len()
        invariant
            i <= list@.len(),
            forall|j: int| 0 <= j < i ==> (#[trigger] list@[j])@ != node@,
        decreases list@.len() - i,
    {
        if list[i].same(node) {
            return Some(i);
        }
        i += 1;
    }
    None
}

/// The position of the entry of a key.
pub(crate) fn find_key<T: Node>(list: &Vec<Adjacency<T>>, key: &T) -> (r: Option<usize>)
    ensures
        match r {
            Some(i) => key_at(list@, i as int, key@) && keys(list@).contains(key@),
            None => !keys(list@).contains(key@),
        },
{
    let mut i: usize = 0;
    while i < list.len()
        invariant
            i <= list@.len(),
            forall|j: int| 0 <= j < i ==> (#[trigger] list@[j]).node@ != key@,
        decreases list@.len() - i,
    {
        if list[i].node.same(key) {
            assert(key_at(list@, i as int, key@));
            return Some(i);
        }
        i += 1;
    }
    None
}

/// Gives a key an entry without peers, if it has none yet.
pub(crate) fn ensure_key<T: Node>(list: &mut Vec<Adjacency<T>>, key: &T) -> (r: usize)
    requires
        adjacency_wf(old(list)@),
    ensures
        adjacency_wf(final(list)@),
        keys(final(list)@) == keys(old(list)@).insert(key@),
        links(final(list)@) == links(old(list)@),
        key_at(final(list)@, r as int, key@),
{
    match find_key(list, key) {
        Some(i) => {
            assert(keys(list@) =~= keys(old(list)@).insert(key@));
            i
        },
        None => {
            let i: usize = list.len();
            list.push(Adjacency { node: key.duplicate(), peers: Vec::new() });
            proof {
                let before = old(list)@;
                let after = list@;
                assert forall|j: int| 0 <= j < before.len() implies (#[trigger] before[j]).node@
                    != key@ by {
                    if before[j].node@ == key@ {
                        assert(key_at(before, j, key@));
                    }
                }
                assert forall|k: T::V| keys(after).contains(k) <==> keys(before).insert(
                    key@,
                ).contains(k) by {
                    if keys(before).contains(k) {
                        let j = choose|j: int| key_at(before, j, k);
                        assert(key_at(after, j, k));
                    }
                    if k == key@ {
                        assert(key_at(after, i as int, k));
                    }
                    if keys(after).contains(k) && k != key@ {
                        let j = choose|j: int| key_at(after, j, k);
                        assert(key_at(before, j, k));
                    }
                }
                assert(keys(after) =~= keys(before).insert(key@));
                assert forall|e: (T::V, T::V)| links(after).contains(e) <==> links(
                    before,
                ).contains(e) by {
                    if links(before).contains(e) {
                        let (a, b) = choose|a: int, b: int| link_at(before, a, b, e.0, e.1);
                        assert(link_at(after, a, b, e.0, e.1));
                    }
                    if links(after).contains(e) {
                        let (a, b) = choose|a: int, b: int| link_at(after, a, b, e.0, e.1);
                        assert(link_at(before, a, b, e.0, e.1));
                    }
                }
                assert(links(after) =~= links(before));
            }
            i
        },
    }
}

/// Links a key to a peer, giving the key an entry if it has none yet.
pub(crate) fn link<T: Node>(list: &mut Vec<Adjacency<T>>, key: &T, peer: &T)
    requires
        adjacency_wf(old(list)@),
    ensures
        adjacency_wf(final(list)@),
        keys(final(list)@) == keys(old(list)@).insert(key@),
        links(final(list)@) == links(old(list)@).insert((key@, peer@)),
{
    let i: usize = ensure_key(list, key);
    let ghost before = list@;
    match position(&list[i].peers, peer) {
        Some(j) => {
            proof {
                let e = (key@, peer@);
                assert(link_at(before, i as int, j as int, e.0, e.1));
                assert(links(before).contains(e));
            }
            assert(links(before) =~= links(before).insert((key@, peer@)));
        },
        None => {
            list[i].peers.push(peer.duplicate());
            proof {
                let after = list@;
                let last = before[i as int].peers@.len() as int;
                assert forall|k: T::V| keys(after).contains(k) <==> keys(before).contains(k) by {
                    if keys(before).contains(k) {
                        let a = choose|a: int| key_at(before, a, k);
                        assert(key_at(after, a, k));
                    }
                    if keys(after).contains(k) {
                        let a = choose|a: int| key_at(after, a, k);
                        assert(key_at(before, a, k));
                    }
                }
                assert(keys(after) =~= keys(before));
                assert forall|e: (T::V, T::V)| links(after).contains(e) <==> links(before).insert(
                    (key@, peer@),
                ).contains(e) by {
                    if links(before).contains(e) {
                        let (a, b) = choose|a: int, b: int| link_at(before, a, b, e.0, e.1);
                        assert(link_at(after, a, b, e.0, e.1));
                    }
                    if e == (key@, peer@) {
                        assert(link_at(after, i as int, last, e.0, e.1));
                    }
                    if links(after).contains(e) && e != (key@, peer@) {
                        let (a, b) = choose|a: int, b: int| link_at(after, a, b, e.0, e.1);
                        assert(link_at(before, a, b, e.0, e.1));
                    }
                }
                assert(links(after) =~= links(before).insert((key@, peer@)));
            }
        },
    }
}

/// Takes a peer from a key. Returns whether the key is left without peers.
pub(crate) fn unlink<T: Node>(list: &mut Vec<Adjacency<T>>, key: &T, peer: &T) -> (emptied: bool)
    requires
        adjacency_wf(old(list)@),
        keys(old(list)@).contains(key@),
    ensures
        adjacency_wf(final(list)@),
        keys(final(list)@) == keys(old(list)@),
        links(final(list)@) == links(old(list)@).remove((key@, peer@)),
        emptied == (forall|p: T::V| !links(final(list)@).contains((key@, p))),
{
    let found: Option<usize> = find_key(list, key);
    let i: usize = found.unwrap();
    let ghost before = list@;
    match position(&list[i].peers, peer) {
        Some(j) => {
            list[i].peers.remove(j);
            proof {
                lemma_unlinked(before, list@, i as int, j as int, key@, peer@);
            }
        },
        None => {
            proof {
                assert forall|e: (T::V, T::V)| links(before).contains(e) implies e != (
                    key@,
                    peer@,
                ) by {
                    let (a, b) = choose|a: int, b: int| link_at(before, a, b, e.0, e.1);
                    if e == (key@, peer@) {
                        assert(before[a].node@ == before[i as int].node@);
                    }
                }
                assert(links(before) =~= links(before).remove((key@, peer@)));
            }
        },
    }
    let emptied: bool = list[i].peers.len() == 0;
    proof {
        if emptied {
            assert forall|p: T::V| !links(list@).contains((key@, p)) by {
                if links(list@).contains((key@, p)) {
                    let (a, b) = choose|a: int, b: int| link_at(list@, a, b, key@, p);
                    assert(list@[a].node@ == list@[i as int].node@);
                }
            }
        } else {
            let e = (key@, list@[i as int].peers@[0]@);
            assert(link_at(list@, i as int, 0, e.0, e.1));
            assert(links(list@).contains(e));
        }
    }
    emptied
}

proof fn lemma_unlinked<T: Node>(
    before: Seq<Adjacency<T>>,
    after: Seq<Adjacency<T>>,
    i: int,
    j: int,
    k: T::V,
    p: T::V,
)
    requires
        adjacency_wf(before),
        link_at(before, i, j, k, p),
        after.len() == before.len(),
        forall|a: int| 0 <= a < before.len() && a != i ==> after[a] == before[a],
        after[i].node@ == before[i].node@,
        after[i].peers@ == before[i].peers@.remove(j),
    ensures
        adjacency_wf(after),
        keys(after) == keys(before),
        links(after) == links(before).remove((k, p)),
{
    assert forall|x: T::V| keys(after).contains(x) <==> keys(before).contains(x) by {
        if keys(before).contains(x) {
            let a = choose|a: int| key_at(before, a, x);
            assert(key_at(after, a, x));
        }
        if keys(after).contains(x) {
            let a = choose|a: int| key_at(after, a, x);
            assert(key_at(before, a, x));
        }
    }
    assert(keys(after) =~= keys(before));
    assert forall|e: (T::V, T::V)| links(after).contains(e) <==> links(before).remove(
        (k, p),
    ).contains(e) by {
        if links(before).contains(e) && e != (k, p) {
            let (a, b) = choose|a: int, b: int| link_at(before, a, b, e.0, e.1);
            if a == i && b > j {
                assert(link_at(after, a, b - 1, e.0, e.1));
            } else {
                assert(link_at(after, a, b, e.0, e.1));
            }
        }
        if links(after).contains(e) {
            let (a, b) = choose|a: int, b: int| link_at(after, a, b, e.0, e.1);
            if a == i && b >= j {
                assert(link_at(before, a, b + 1, e.0, e.1));
            } else {
                assert(link_at(before, a, b, e.0, e.1));
            }
            if e == (k, p) {
                assert(before[a].node@ == before[i].node@);
            }
        }
    }
    assert(links(after) =~= links(before).remove((k, p)));
}

/// Removes a key, and with it its links.
pub(crate) fn remove_key<T: Node>(list: &mut Vec<Adjacency<T>>, key: &T)
    requires
        adjacency_wf(old(list)@),
    ensures
        adjacency_wf(final(list)@),
        keys(final(list)@) == keys(old(list)@).remove(key@),
        links(final(list)@) == links(old(list)@).filter(|e: (T::V, T::V)| e.0 != key@),
{
    let ghost before = list@;
    match find_key(list, key) {
        Some(i) => {
            list.remove(i);
            proof {
                let after = list@;
                let at = i as int;
                assert forall|x: T::V| keys(after).contains(x) <==> keys(before).remove(
                    key@,
                ).contains(x) by {
                    if keys(before).contains(x) && x != key@ {
                        let a = choose|a: int| key_at(before, a, x);
                        assert(key_at(after, if a > at { a - 1 } else { a }, x));
                    }
                    if keys(after).contains(x) {
                        let a = choose|a: int| key_at(after, a, x);
                        let c = if a >= at { a + 1 } else { a };
                        assert(key_at(before, c, x));
                        assert(before[c].node@ != before[at].node@);
                    }
                }
                assert(keys(after) =~= keys(before).remove(key@));
                let kept = links(before).filter(|e: (T::V, T::V)| e.0 != key@);
                assert forall|e: (T::V, T::V)| links(after).contains(e) <==> kept.contains(e) by {
                    if kept.contains(e) {
                        let (a, b) = choose|a: int, b: int| link_at(before, a, b, e.0, e.1);
                        assert(link_at(after, if a > at { a - 1 } else { a }, b, e.0, e.1));
                    }
                    if links(after).contains(e) {
                        let (a, b) = choose|a: int, b: int| link_at(after, a, b, e.0, e.1);
                        let c = if a >= at { a + 1 } else { a };
                        assert(link_at(before, c, b, e.0, e.1));
                        assert(before[c].node@ != before[at].node@);
                    }
                }
                assert(links(after) =~= kept);
            }
        },
        None => {
            proof {
                assert(keys(before) =~= keys(before).remove(key@));
                let kept = links(before).filter(|e: (T::V, T::V)| e.0 != key@);
                assert forall|e: (T::V, T::V)| links(before).contains(e) implies kept.contains(
                    e,
                ) by {
                    let (a, b) = choose|a: int, b: int| link_at(before, a, b, e.0, e.1);
                    assert(key_at(before, a, e.0));
                }
                assert(links(before) =~= kept);
            }
        },
    }
}

} // verus!
