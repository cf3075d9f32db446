//! Substitutions of names for names, and the closure of their chains.

use vstd::prelude::*;

use super::ast::Name;
use super::name_map::NameMap;

verus! {

/// The substitution that a map of strings stands for.
pub open spec fn substitution(m: Map<Name, String>) -> Map<Name, Name> {
    m.map_values(|s: String| s@)
}

/// A chain ends at `n`: nothing, or `n` itself, is substituted for it.
pub open spec fn settled(subs: Map<Name, Name>, n: Name) -> bool {
    subs.contains_key(n) ==> subs[n] == n
}

/// The name that `n` becomes after `steps` substitutions.
pub open spec fn follow(subs: Map<Name, Name>, n: Name, steps: nat) -> Name
    decreases steps,
{
    if steps > 0 && subs.contains_key(n) {
        follow(subs, subs[n], (steps - 1) as nat)
    } else {
        n
    }
}

/// The chain from `n` ends.
pub open spec fn ends(subs: Map<Name, Name>, n: Name) -> bool {
    exists|steps: nat| settled(subs, #[trigger] follow(subs, n, steps))
}

/// Every chain ends: no name is substituted, over one or more other names, for itself.
pub open spec fn all_end(subs: Map<Name, Name>) -> bool {
    forall|n: Name| #[trigger] subs.contains_key(n) ==> ends(subs, n)
}

/// The last name of the chain from `n`.
pub open spec fn resolve(subs: Map<Name, Name>, n: Name) -> Name {
    follow(subs, n, choose|steps: nat| settled(subs, #[trigger] follow(subs, n, steps)))
}

/// Every name replaced by the last one of its chain.
pub open spec fn closure(subs: Map<Name, Name>) -> Map<Name, Name> {
    Map::new(|n: Name| subs.contains_key(n), |n: Name| resolve(subs, n))
}

/// From where a chain has settled, further steps change nothing.
proof fn lemma_follow_settled(subs: Map<Name, Name>, n: Name, steps: nat)
    requires
        settled(subs, n),
    ensures
        follow(subs, n, steps) == n,
    decreases steps,
{
    if steps > 0 && subs.contains_key(n) {
        lemma_follow_settled(subs, n, (steps - 1) as nat);
    }
}

/// A chain settles at one name only.
pub proof fn lemma_settles_once(subs: Map<Name, Name>, n: Name, a: nat, b: nat)
    requires
        settled(subs, follow(subs, n, a)),
        settled(subs, follow(subs, n, b)),
    ensures
        follow(subs, n, a) == follow(subs, n, b),
    decreases a,
{
    if a == 0 {
        lemma_follow_settled(subs, n, b);
    } else if b == 0 {
        lemma_follow_settled(subs, n, a);
    } else if subs.contains_key(n) {
        lemma_settles_once(subs, subs[n], (a - 1) as nat, (b - 1) as nat);
    }
}

/// The end of a chain is where it settles.
pub proof fn lemma_resolve(subs: Map<Name, Name>, n: Name, steps: nat)
    requires
        settled(subs, follow(subs, n, steps)),
    ensures
        ends(subs, n),
        resolve(subs, n) == follow(subs, n, steps),
        settled(subs, resolve(subs, n)),
{
    let chosen = choose|k: nat| settled(subs, #[trigger] follow(subs, n, k));
    lemma_settles_once(subs, n, chosen, steps);
}

/// Where a name is substituted, its chain is the chain of what it becomes.
pub proof fn lemma_resolve_step(subs: Map<Name, Name>, n: Name, steps: nat)
    requires
        subs.contains_key(n),
        settled(subs, follow(subs, n, steps)),
    ensures
        resolve(subs, n) == resolve(subs, subs[n]),
        subs[n] != n ==> steps > 0 && settled(subs, follow(subs, subs[n], (steps - 1) as nat)),
{
    lemma_resolve(subs, n, steps);
    if subs[n] != n {
        lemma_resolve(subs, subs[n], (steps - 1) as nat);
    }
}

/// Resolves each value to its furthest target, so that chains `(X -> Y), (Y -> Z)` collapse to
/// `(X -> Z), (Y -> Z)`. It returns on exactly the substitutions all of whose chains end.
pub fn transitive_closure(subs: &mut NameMap<String>)
    requires
        old(subs).wf(),
        all_end(substitution(old(subs)@)),
    ensures
        final(subs).wf(),
        substitution(final(subs)@) == closure(substitution(old(subs)@)),
        final(subs).keys() == old(subs).keys(),
{
    let ghost start = substitution(old(subs)@);
    let ghost keys = old(subs).keys();
    let mut i: usize = 0;
    proof {
        subs.lemma_keys();
    }
    while i < subs.len()
        invariant
            subs.wf(),
            i <= keys.len(),
            keys == subs.keys(),
            keys.no_duplicates(),
            all_end(start),
            forall|k: Name| #[trigger] start.contains_key(k) <==> keys.contains(k),
            substitution(subs@).dom() == start.dom(),
            forall|j: int|
                0 <= j < i ==> substitution(subs@)[#[trigger] keys[j]] == resolve(start, keys[j]),
            forall|j: int|
                i <= j < keys.len() ==> substitution(subs@)[#[trigger] keys[j]] == start[keys[j]],
        decreases keys.len() - i,
    {
        let ghost now = substitution(subs@);
        let key = subs.key_at(i).clone();
        proof {
            subs.lemma_keys();
            assert(keys.contains(key@));
            assert(start.contains_key(key@));
            assert(now.contains_key(key@));
            assert(ends(start, key@));
        }
        let ghost first = choose|s: nat| settled(start, #[trigger] follow(start, key@, s));
        let mut cur: String = match subs.get(key.as_str()) {
            Some(value) => value.clone(),
            None => key.clone(),
        };
        let ghost mut steps: nat = first;
        proof {
            lemma_resolve_step(start, key@, first);
            if cur@ != key@ {
                steps = (first - 1) as nat;
            }
        }
        loop
            invariant
                subs.wf(),
                now == substitution(subs@),
                now.dom() == start.dom(),
                resolve(start, cur@) == resolve(start, key@),
                settled(start, follow(start, cur@, steps)),
                forall|k: Name| #[trigger] start.contains_key(k) <==> keys.contains(k),
                forall|j: int| 0 <= j < keys.len() ==> {
                    ||| now[#[trigger] keys[j]] == resolve(start, keys[j])
                    ||| now[keys[j]] == start[keys[j]]
                },
                all_end(start),
            ensures
                cur@ == resolve(start, key@),
            decreases steps,
        {
            proof {
                assert(now.contains_key(cur@) <==> start.contains_key(cur@));
                lemma_resolve(start, cur@, steps);
            }
            match subs.get(cur.as_str()) {
                None => {
                    proof {
                        lemma_resolve(start, cur@, 0);
                    }
                    break;
                },
                Some(next) => {
                    proof {
                        assert(keys.contains(cur@));
                        assert(now[cur@] == next@);
                        lemma_resolve_step(start, cur@, steps);
                    }
                    if *next == cur {
                        proof {
                            if start[cur@] == cur@ {
                                lemma_resolve(start, cur@, 0);
                            }
                        }
                        break;
                    }
                    let ghost was = cur@;
                    cur = next.clone();
                    proof {
                        if cur@ == resolve(start, was) {
                            if start[was] == was {
                                lemma_resolve(start, was, 0);
                            }
                            lemma_resolve(start, cur@, 0);
                            steps = 0;
                        } else {
                            steps = (steps - 1) as nat;
                        }
                    }
                },
            }
        }
        subs.insert(key, cur);
        proof {
            assert(substitution(subs@) =~= now.insert(key@, cur@));
            assert(now.insert(key@, cur@).dom() =~= start.dom());
        }
        i += 1;
    }
    proof {
        assert forall|k: Name| #[trigger] start.contains_key(k) implies substitution(subs@)[k]
            == resolve(start, k) by {
            let j = choose|j: int| 0 <= j < keys.len() && keys[j] == k;
            assert(substitution(subs@)[keys[j]] == resolve(start, keys[j]));
        }
        assert(substitution(subs@) =~= closure(start));
    }
}

/// Names that lead only to each other lead to no end.
proof fn lemma_stuck(subs: Map<Name, Name>, done: Set<Name>, n: Name, steps: nat)
    requires
        forall|m: Name| #[trigger]
            subs.contains_key(m) && !done.contains(m) ==> subs[m] != m && subs.contains_key(subs[m])
                && !done.contains(subs[m]),
        subs.contains_key(n),
        !done.contains(n),
    ensures
        !settled(subs, follow(subs, n, steps)),
    decreases steps,
{
    if steps > 0 {
        lemma_stuck(subs, done, subs[n], (steps - 1) as nat);
    }
}

/// A name whose target is an end, or has a chain that ends, has a chain that ends.
proof fn lemma_ends_step(subs: Map<Name, Name>, n: Name)
    requires
        subs.contains_key(n),
        subs[n] == n || !subs.contains_key(subs[n]) || ends(subs, subs[n]),
    ensures
        ends(subs, n),
{
    if subs[n] == n {
        assert(settled(subs, follow(subs, n, 0)));
    } else {
        let steps = if !subs.contains_key(subs[n]) {
            0
        } else {
            choose|k: nat| settled(subs, #[trigger] follow(subs, subs[n], k))
        };
        assert(settled(subs, follow(subs, subs[n], steps)));
        assert(follow(subs, n, steps + 1) == follow(subs, subs[n], steps));
    }
}

/// Whether every chain ends.
pub fn chains_end(subs: &NameMap<String>) -> (res: bool)
    requires
        subs.wf(),
    ensures
        res == all_end(substitution(subs@)),
{
    let ghost s = substitution(subs@);
    let mut done: NameMap<bool> = NameMap::new();
    loop
        invariant
            subs.wf(),
            s == substitution(subs@),
            done.wf(),
            forall|k: Name| #[trigger] done@.contains_key(k) ==> s.contains_key(k) && ends(s, k),
        decreases subs.keys().len() - done.keys().len(),
    {
        let before: usize = done.len();
        let stuck: bool = settle_more(subs, &mut done);
        proof {
            lemma_no_more_keys(subs, &done);
        }
        if done.len() == before {
            proof {
                if stuck {
                    let k = choose|k: Name| #[trigger]
                        s.contains_key(k) && !done@.contains_key(k);
                    assert forall|steps: nat| !settled(s, #[trigger] follow(s, k, steps)) by {
                        lemma_stuck(s, done@.dom(), k, steps);
                    }
                    assert(!ends(s, k));
                }
            }
            return !stuck;
        }
    }
}

/// Takes in one more name of each chain that is known to end, where there is one, and says
/// whether names are left.
fn settle_more(subs: &NameMap<String>, done: &mut NameMap<bool>) -> (stuck: bool)
    requires
        subs.wf(),
        old(done).wf(),
        forall|k: Name| #[trigger]
            old(done)@.contains_key(k) ==> substitution(subs@).contains_key(k) && ends(
                substitution(subs@),
                k,
            ),
    ensures
        final(done).wf(),
        final(done).keys().len() >= old(done).keys().len(),
        forall|k: Name| #[trigger]
            final(done)@.contains_key(k) ==> substitution(subs@).contains_key(k) && ends(
                substitution(subs@),
                k,
            ),
        final(done).keys().len() == old(done).keys().len() ==> {
            &&& stuck == exists|k: Name| #[trigger]
                substitution(subs@).contains_key(k) && !final(done)@.contains_key(k)
            &&& forall|m: Name| #[trigger]
                substitution(subs@).contains_key(m) && !final(done)@.contains_key(m) ==> {
                    &&& substitution(subs@)[m] != m
                    &&& substitution(subs@).contains_key(substitution(subs@)[m])
                    &&& !final(done)@.contains_key(substitution(subs@)[m])
                }
        },
{
    let ghost s = substitution(subs@);
    let ghost first = done@;
    let ghost count = done.keys().len();
    let mut stuck: bool = false;
    let mut i: usize = 0;
    while i < subs.len()
        invariant
            subs.wf(),
            s == substitution(subs@),
            done.wf(),
            i <= subs.keys().len(),
            done.keys().len() >= count,
            forall|k: Name| #[trigger] done@.contains_key(k) ==> s.contains_key(k) && ends(s, k),
            done.keys().len() == count ==> {
                &&& done@ == first
                &&& stuck ==> exists|k: Name| #[trigger]
                    s.contains_key(k) && !done@.contains_key(k)
                &&& !stuck ==> forall|j: int|
                    0 <= j < i ==> done@.contains_key(#[trigger] subs.keys()[j])
                &&& forall|j: int|
                    0 <= j < i && !done@.contains_key(#[trigger] subs.keys()[j]) ==> {
                        let m = subs.keys()[j];
                        &&& s[m] != m
                        &&& s.contains_key(s[m])
                        &&& !done@.contains_key(s[m])
                    }
            },
        decreases subs.keys().len() - i,
    {
        let key = subs.key_at(i);
        proof {
            subs.lemma_keys();
            assert(subs.keys().contains(key@));
            assert(s.contains_key(key@));
        }
        if done.get(key.as_str()).is_none() {
            match subs.get(key.as_str()) {
                Some(next) => {
                    assert(s[key@] == next@);
                    if *next == *key || subs.get(next.as_str()).is_none() || done.get(
                        next.as_str(),
                    ).is_some() {
                        proof {
                            lemma_ends_step(s, key@);
                        }
                        done.insert(key.clone(), true);
                    } else {
                        stuck = true;
                    }
                },
                None => {},
            }
        }
        i += 1;
    }
    proof {
        subs.lemma_keys();
        assert forall|k: Name| #[trigger] s.contains_key(k) implies exists|j: int|
            0 <= j < subs.keys().len() && #[trigger] subs.keys()[j] == k by {
            assert(subs@.contains_key(k));
            assert(subs.keys().contains(k));
        }
    }
    stuck
}

/// A map whose keys are keys of another one has no more of them.
proof fn lemma_no_more_keys(subs: &NameMap<String>, done: &NameMap<bool>)
    requires
        subs.wf(),
        done.wf(),
        forall|k: Name| #[trigger] done@.contains_key(k) ==> subs@.contains_key(k),
    ensures
        done.keys().len() <= subs.keys().len(),
{
    subs.lemma_keys();
    done.lemma_keys();
    done.keys().unique_seq_to_set();
    subs.keys().unique_seq_to_set();
    assert forall|k: Name| #[trigger] done.keys().to_set().contains(
        k,
    ) implies subs.keys().to_set().contains(k) by {
        assert(done.keys().contains(k));
        assert(done@.contains_key(k));
        assert(subs@.contains_key(k));
        assert(subs.keys().contains(k));
    }
    vstd::set_lib::lemma_len_subset(done.keys().to_set(), subs.keys().to_set());
}

/// Where every chain ends, the closure leaves nothing to resolve: what it substitutes is not
/// itself substituted by another name, and closing it again changes nothing.
pub proof fn law_closure_is_flat(subs: Map<Name, Name>)
    requires
        all_end(subs),
    ensures
        forall|n: Name| #[trigger] subs.contains_key(n) ==> settled(subs, closure(subs)[n]),
        all_end(closure(subs)),
        closure(closure(subs)) == closure(subs),
{
    let flat = closure(subs);
    assert forall|n: Name| #[trigger] subs.contains_key(n) implies {
        &&& settled(subs, flat[n])
        &&& settled(flat, flat[n])
        &&& ends(flat, n)
        &&& resolve(flat, n) == flat[n]
    } by {
        let steps = choose|s: nat| settled(subs, #[trigger] follow(subs, n, s));
        lemma_resolve(subs, n, steps);
        if subs.contains_key(flat[n]) {
            lemma_resolve(subs, flat[n], 0);
        }
        assert(follow(flat, n, 1) == follow(flat, flat[n], 0));
        lemma_resolve(flat, n, 1);
    }
    assert(closure(flat) =~= flat);
}

/// A chain of substitutions from `n` to where nothing, or the name itself, is substituted: each
/// name but the last is substituted by the one after it.
pub open spec fn is_chain(subs: Map<Name, Name>, n: Name, chain: Seq<Name>) -> bool {
    &&& chain.len() > 0
    &&& chain[0] == n
    &&& forall|i: int|
        0 <= i < chain.len() - 1 ==> subs.contains_key(#[trigger] chain[i]) && chain[i + 1]
            == subs[chain[i]]
    &&& !subs.contains_key(chain.last()) || subs[chain.last()] == chain.last()
}

/// The closure gives each name the end of its chain, however long that is; and all chains end
/// where each name that is substituted has such a chain.
pub proof fn law_closure_by_chains(subs: Map<Name, Name>)
    ensures
        closure(subs).dom() == subs.dom(),
        forall|n: Name, chain: Seq<Name>|
            subs.contains_key(n) && #[trigger] is_chain(subs, n, chain) ==> closure(subs)[n]
                == chain.last(),
        all_end(subs) <==> forall|n: Name| #[trigger]
            subs.contains_key(n) ==> exists|chain: Seq<Name>| is_chain(subs, n, chain),
{
    assert(closure(subs).dom() =~= subs.dom());
    assert forall|n: Name, chain: Seq<Name>|
        subs.contains_key(n) && #[trigger] is_chain(subs, n, chain) implies closure(subs)[n]
        == chain.last() && ends(subs, n) by {
        lemma_follow_chain(subs, n, chain);
        lemma_resolve(subs, n, (chain.len() - 1) as nat);
    }
    assert forall|n: Name| #[trigger] ends(subs, n) implies exists|chain: Seq<Name>|
        is_chain(subs, n, chain) by {
        let chain = lemma_chain_of(
            subs,
            n,
            choose|s: nat| settled(subs, #[trigger] follow(subs, n, s)),
        );
        assert(is_chain(subs, n, chain));
    }
}

proof fn lemma_follow_chain(subs: Map<Name, Name>, n: Name, chain: Seq<Name>)
    requires
        is_chain(subs, n, chain),
    ensures
        follow(subs, n, (chain.len() - 1) as nat) == chain.last(),
    decreases chain.len(),
{
    if chain.len() > 1 {
        let rest = chain.drop_first();
        assert(chain[1] == subs[chain[0]]);
        assert forall|i: int| 0 <= i < rest.len() - 1 implies subs.contains_key(#[trigger] rest[i])
            && rest[i + 1] == subs[rest[i]] by {
            assert(subs.contains_key(chain[i + 1]));
        }
        assert(is_chain(subs, subs[n], rest));
        lemma_follow_chain(subs, subs[n], rest);
    }
}

proof fn lemma_chain_of(subs: Map<Name, Name>, n: Name, steps: nat) -> (chain: Seq<Name>)
    requires
        settled(subs, follow(subs, n, steps)),
    ensures
        is_chain(subs, n, chain),
        chain.last() == resolve(subs, n),
    decreases steps,
{
    lemma_resolve(subs, n, steps);
    if settled(subs, n) {
        lemma_resolve(subs, n, 0);
        seq![n]
    } else {
        lemma_resolve_step(subs, n, steps);
        let rest = lemma_chain_of(subs, subs[n], (steps - 1) as nat);
        let chain = seq![n] + rest;
        assert forall|i: int| 0 <= i < chain.len() - 1 implies subs.contains_key(
            #[trigger] chain[i],
        ) && chain[i + 1] == subs[chain[i]] by {
            if i > 0 {
                assert(subs.contains_key(rest[i - 1]));
            }
        }
        assert(chain.last() == rest.last());
        chain
    }
}

/// The substitution of a map of strings has the same keys, and for each of them the text that
/// the map holds.
pub proof fn law_substitution_of_strings(m: Map<Name, String>)
    ensures
        substitution(m).dom() == m.dom(),
        forall|n: Name| #[trigger] m.contains_key(n) ==> substitution(m)[n] == m[n]@,
{
}

} // verus!
