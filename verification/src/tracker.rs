//! The pair tracker: which pairs of images have been handed out for
//! comparison.
//!
//! A pair is unordered.  The tracker records each pair in the orientation in
//! which it was first claimed and answers for both orientations.

use std::collections::HashSet;
use vstd::hash_map::StringHashMap;
use vstd::prelude::*;

verus! {

/// Whether the pair of `a` and `b` is among `claims`, in either orientation.
pub open spec fn is_claimed(claims: Set<(Seq<char>, Seq<char>)>, a: Seq<char>, b: Seq<char>) -> bool {
    claims.contains((a, b)) || claims.contains((b, a))
}

/// Whether a claim of the pair of `a` and `b` succeeds: the two differ and
/// the pair is not yet among `claims`.
pub open spec fn claimable(claims: Set<(Seq<char>, Seq<char>)>, a: Seq<char>, b: Seq<char>) -> bool {
    a != b && !is_claimed(claims, a, b)
}

/// The claims after one attempt to claim the pair of `a` and `b`.
pub open spec fn after_claim(claims: Set<(Seq<char>, Seq<char>)>, a: Seq<char>, b: Seq<char>) -> Set<
    (Seq<char>, Seq<char>),
> {
    if claimable(claims, a, b) {
        claims.insert((a, b))
    } else {
        claims
    }
}

/// The claims after attempting, in order, the pair of `a` with each of
/// `others`.
pub open spec fn after_claims(claims: Set<(Seq<char>, Seq<char>)>, a: Seq<char>, others: Seq<Seq<char>>) -> Set<
    (Seq<char>, Seq<char>),
>
    decreases others.len(),
{
    if others.len() == 0 {
        claims
    } else {
        after_claim(after_claims(claims, a, others.drop_last()), a, others.last())
    }
}

/// The paths of a list, each as its text.
pub open spec fn texts(paths: Seq<String>) -> Seq<Seq<char>> {
    Seq::new(paths.len(), |i: int| paths[i]@)
}

/// The number under which the ordered pair of two path numbers is stored.
spec fn pair_code(x: u64, y: u64) -> u128 {
    (x * 0x1_0000_0000_0000_0000 + y) as u128
}

proof fn lemma_pair_code_injective(x: u64, y: u64, u: u64, v: u64)
    requires
        pair_code(x, y) == pair_code(u, v),
    ensures
        x == u,
        y == v,
{
}

fn code_of(x: u64, y: u64) -> (code: u128)
    ensures
        code == pair_code(x, y),
{
    (x as u128) * 0x1_0000_0000_0000_0000u128 + (y as u128)
}

/// The set of pairs already claimed for comparison.
pub struct PairTracker {
    /// The number of each path seen in a successful claim.
    ids: StringHashMap<u64>,
    /// The claimed pairs, each as the code of its two path numbers.
    pairs: HashSet<u128>,
}

impl View for PairTracker {
    type V = Set<(Seq<char>, Seq<char>)>;

    closed spec fn view(&self) -> Set<(Seq<char>, Seq<char>)> {
        Set::new(
            |pair: (Seq<char>, Seq<char>)|
                self.ids@.contains_key(pair.0) && self.ids@.contains_key(pair.1) && self.pairs@.contains(
                    pair_code(self.ids@[pair.0], self.ids@[pair.1]),
                ),
        )
    }
}

impl PairTracker {
    #[verifier::type_invariant]
    spec fn numbered(&self) -> bool {
        &&& self.ids@.dom().finite()
        &&& forall|p: Seq<char>| #[trigger]
            self.ids@.contains_key(p) ==> self.ids@[p] < self.ids@.dom().len()
        &&& forall|p: Seq<char>, q: Seq<char>|
            #![trigger self.ids@[p], self.ids@[q]]
            self.ids@.contains_key(p) && self.ids@.contains_key(q) && self.ids@[p] == self.ids@[q] ==> p == q
        &&& forall|x: u64, y: u64| #[trigger]
            self.pairs@.contains(pair_code(x, y)) ==> x < self.ids@.dom().len() && y
                < self.ids@.dom().len()
        &&& forall|p: Seq<char>, q: Seq<char>|
            #![trigger self.ids@[p], self.ids@[q]]
            self.ids@.contains_key(p) && self.ids@.contains_key(q) && self.pairs@.contains(
                pair_code(self.ids@[p], self.ids@[q]),
            ) ==> p != q && !self.pairs@.contains(pair_code(self.ids@[q], self.ids@[p]))
    }

    /// A tracker in which no pair is claimed.
    pub fn new() -> (tracker: PairTracker)
        ensures
            tracker@ == Set::<(Seq<char>, Seq<char>)>::empty(),
    {
        let tracker = PairTracker { ids: StringHashMap::new(), pairs: HashSet::new() };
        assert(tracker@ =~= Set::<(Seq<char>, Seq<char>)>::empty());
        tracker
    }

    /// Tells whether the pair of `a` and `b` has been claimed, in either
    /// orientation.
    pub fn contains(&self, a: &String, b: &String) -> (found: bool)
        ensures
            found == is_claimed(self@, a@, b@),
    {
        let x = self.ids.get(a.as_str());
        let y = self.ids.get(b.as_str());
        match (x, y) {
            (Some(x), Some(y)) => {
                let forward: u128 = code_of(*x, *y);
                let backward: u128 = code_of(*y, *x);
                self.pairs.contains(&forward) || self.pairs.contains(&backward)
            },
            _ => false,
        }
    }

    /// The number of `path` in `ids`, which is given the next free one if it
    /// has none.
    fn number(ids: &mut StringHashMap<u64>, path: &String) -> (id: u64)
        ensures
            final(ids)@ == old(ids)@.insert(path@, id),
            old(ids)@.contains_key(path@) ==> id == old(ids)@[path@],
            !old(ids)@.contains_key(path@) ==> id == old(ids)@.dom().len(),
    {
        let known = ids.get(path.as_str());
        match known {
            Some(id) => {
                let id: u64 = *id;
                assert(ids@ =~= ids@.insert(path@, id));
                id
            },
            None => {
                let id: u64 = ids.len() as u64;
                ids.insert(path.clone(), id);
                id
            },
        }
    }

    /// Claims the pair of `a` and `b` for the caller.
    ///
    /// The claim succeeds when the two paths differ and the pair has not been
    /// claimed before, in either orientation; the pair is then recorded.
    /// Otherwise nothing changes.
    pub fn try_claim(&mut self, a: &String, b: &String) -> (won: bool)
        ensures
            won == claimable(old(self)@, a@, b@),
            final(self)@ == after_claim(old(self)@, a@, b@),
    {
        if *a == *b || self.contains(a, b) {
            return false;
        }
        proof {
            use_type_invariant(&*self);
        }
        let ghost before = *self;
        assert(a@ != b@);
        assert(!before@.contains((a@, b@)) && !before@.contains((b@, a@)));
        let mut taken = PairTracker::new();
        core::mem::swap(self, &mut taken);
        let PairTracker { mut ids, mut pairs } = taken;
        let x: u64 = Self::number(&mut ids, a);
        let y: u64 = Self::number(&mut ids, b);
        let code: u128 = code_of(x, y);
        pairs.insert(code);
        proof {
            assert(forall|p: Seq<char>| #[trigger]
                before.ids@.contains_key(p) ==> ids@.contains_key(p) && ids@[p] == before.ids@[p]);
            assert(forall|p: Seq<char>| #[trigger]
                ids@.contains_key(p) ==> before.ids@.contains_key(p) || p == a@ || p == b@);
            assert forall|u: u64, v: u64| #[trigger] pairs@.contains(pair_code(u, v)) implies u
                < ids@.dom().len() && v < ids@.dom().len() by {
                if pair_code(u, v) == code {
                    lemma_pair_code_injective(u, v, x, y);
                }
            }
            assert forall|p: Seq<char>, q: Seq<char>|
                #![trigger ids@[p], ids@[q]]
                ids@.contains_key(p) && ids@.contains_key(q) && pairs@.contains(
                    pair_code(ids@[p], ids@[q]),
                ) implies p != q && !pairs@.contains(pair_code(ids@[q], ids@[p])) by {
                if pair_code(ids@[p], ids@[q]) == code {
                    lemma_pair_code_injective(ids@[p], ids@[q], x, y);
                }
                if pair_code(ids@[q], ids@[p]) == code {
                    lemma_pair_code_injective(ids@[q], ids@[p], x, y);
                }
            }
        }
        *self = PairTracker { ids, pairs };
        proof {
            assert forall|pair: (Seq<char>, Seq<char>)| #[trigger]
                self@.contains(pair) <==> before@.insert((a@, b@)).contains(pair) by {
                if pair != (a@, b@) && self@.contains(pair) {
                    let u = self.ids@[pair.0];
                    let v = self.ids@[pair.1];
                    if pair_code(u, v) == code {
                        lemma_pair_code_injective(u, v, x, y);
                    }
                }
            }
            assert(self@ =~= before@.insert((a@, b@)));
        }
        true
    }

    /// Claims the pair of `path` with each of `others`, so that none of them
    /// is handed out for comparison afterwards.  Pairs that were claimed
    /// before stay as they are.
    pub fn exclude(&mut self, path: &String, others: &Vec<String>)
        ensures
            final(self)@ == after_claims(old(self)@, path@, texts(others@)),
    {
        let mut i: usize = 0;
        while i < others.len()
            invariant
                i <= others.len(),
                self@ == after_claims(old(self)@, path@, texts(others@).take(i as int)),
            decreases others.len() - i,
        {
            let ghost seen = texts(others@).take(i as int);
            let ghost next = texts(others@).take(i + 1);
            assert(next.drop_last() =~= seen);
            assert(next.last() == others@[i as int]@);
            self.try_claim(path, &others[i]);
            i += 1;
        }
        assert(texts(others@).take(i as int) =~= texts(others@));
    }
}

/// Tells whether the pair of `path1` and `path2` needs no comparison: the
/// two are the same image, or the pair was claimed before.  If it returns
/// `false`, the pair is claimed by this call, and the caller compares it.
pub fn already_checked(tracker: &mut PairTracker, path1: String, path2: String) -> (checked: bool)
    ensures
        checked == !claimable(old(tracker)@, path1@, path2@),
        final(tracker)@ == after_claim(old(tracker)@, path1@, path2@),
{
    !tracker.try_claim(&path1, &path2)
}

/// Claiming a pair settles it for both orientations: after a successful
/// claim of `a` with `b`, neither `b` with `a` nor `a` with `b` can be
/// claimed again, and the second attempt changes nothing.
pub proof fn lemma_claim_is_unordered(claims: Set<(Seq<char>, Seq<char>)>, a: Seq<char>, b: Seq<char>)
    requires
        a != b,
        !is_claimed(claims, a, b),
    ensures
        claimable(claims, a, b),
        !claimable(after_claim(claims, a, b), b, a),
        !claimable(after_claim(claims, a, b), a, b),
        after_claim(after_claim(claims, a, b), b, a) == after_claim(claims, a, b),
{
}

/// The pair of an image with itself can never be claimed, whatever has been
/// claimed before, and the attempt changes nothing.
pub proof fn lemma_self_pair_is_never_claimed(claims: Set<(Seq<char>, Seq<char>)>, a: Seq<char>)
    ensures
        !claimable(claims, a, a),
        after_claim(claims, a, a) == claims,
{
}

/// A claim never takes a pair back: whatever was claimed stays claimed.
pub proof fn lemma_claims_only_grow(claims: Set<(Seq<char>, Seq<char>)>, a: Seq<char>, b: Seq<char>)
    ensures
        claims.subset_of(after_claim(claims, a, b)),
        a != b ==> is_claimed(after_claim(claims, a, b), a, b),
{
}

/// After the pair of `a` with each of `others` has been attempted, each of
/// those pairs is claimed, every earlier claim stands, and every new claim
/// is a pair of `a` with one of `others`.
pub proof fn lemma_after_claims(claims: Set<(Seq<char>, Seq<char>)>, a: Seq<char>, others: Seq<Seq<char>>)
    ensures
        claims.subset_of(after_claims(claims, a, others)),
        forall|i: int|
            0 <= i < others.len() && others[i] != a ==> is_claimed(
                after_claims(claims, a, others),
                a,
                #[trigger] others[i],
            ),
        forall|pair: (Seq<char>, Seq<char>)| #[trigger]
            after_claims(claims, a, others).contains(pair) && !claims.contains(pair) ==> pair.0 == a
                && pair.1 != a && others.contains(pair.1),
    decreases others.len(),
{
    if others.len() > 0 {
        let front = others.drop_last();
        lemma_after_claims(claims, a, front);
        assert forall|i: int| 0 <= i < others.len() && others[i] != a implies is_claimed(
            after_claims(claims, a, others),
            a,
            #[trigger] others[i],
        ) by {
            if i < front.len() {
                assert(front[i] == others[i]);
            }
        }
        assert forall|pair: (Seq<char>, Seq<char>)| #[trigger]
            after_claims(claims, a, others).contains(pair) && !claims.contains(pair) implies pair.0
            == a && pair.1 != a && others.contains(pair.1) by {
            if after_claims(claims, a, front).contains(pair) {
                let i = choose|i: int| 0 <= i < front.len() && front[i] == pair.1;
                assert(others[i] == pair.1);
            } else {
                assert(others[others.len() - 1] == pair.1);
            }
        }
    }
}

} // verus!
