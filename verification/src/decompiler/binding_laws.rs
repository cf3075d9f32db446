//! Which bindings a pass inlines, and what it makes of an expression.

use vstd::prelude::*;

use super::ast::{Exp, Name, Op, Tree};
use super::execution_laws::{holds_graph, law_once_on_a_path, runs};
use super::inline_laws::{
    becomes, bindings, bindings_of_all, law_substitution_of_a_pass, lemma_candidates_are_bindings,
    lemma_contains_concat, lemma_exp_proper, proper,
};
use super::inline_single_use_bindings::{
    applied, applied_to_all, applied_to_kept, binding, dropped, inlined, lemma_applied_to_all,
    refined, resolvable, sub_map,
};
use super::name_counts::{count, Role};
use super::substitution::{closure, is_chain, law_closure_by_chains};

verus! {

/// `t` is the binding `let x = y`.
pub open spec fn lets(t: Tree, x: Name, y: Name) -> bool {
    t == (Tree {
        op: Op::LetBind(seq![x]),
        kids: seq![Tree { op: Op::Variable(y), kids: seq![] }],
    })
}

/// The binding `let x = y` stands somewhere in `t`.
pub open spec fn holds_let(t: Tree, x: Name, y: Name) -> bool
    decreases t,
{
    lets(t, x, y) || exists|i: int| 0 <= i < t.kids.len() && holds_let(#[trigger] t.kids[i], x, y)
}

proof fn lemma_lets(t: Tree, x: Name, y: Name)
    requires
        proper(t),
    ensures
        lets(t, x, y) <==> binding(t) == Some((x, y)),
{
    if binding(t) == Some((x, y)) {
        assert(proper(t.kids[0]));
        let kid = t.kids[0];
        assert(kid.kids =~= Seq::<Tree>::empty());
        assert(kid == (Tree { op: Op::Variable(y), kids: seq![] }));
        assert(t.kids =~= seq![kid]);
        assert(t.op->LetBind_0 =~= seq![x]);
    }
}

proof fn lemma_holds_let(t: Tree, x: Name, y: Name)
    requires
        proper(t),
    ensures
        holds_let(t, x, y) <==> bindings(t).contains((x, y)),
    decreases t, 1int,
{
    lemma_lets(t, x, y);
    lemma_any_let(t.kids, x, y);
    let own = match binding(t) {
        Some(b) => seq![b],
        None => Seq::<(Name, Name)>::empty(),
    };
    lemma_contains_concat(own, bindings_of_all(t.kids), (x, y));
    if binding(t) == Some((x, y)) {
        assert(own[0] == (x, y));
    }
}

proof fn lemma_any_let(ts: Seq<Tree>, x: Name, y: Name)
    requires
        forall|i: int| 0 <= i < ts.len() ==> proper(#[trigger] ts[i]),
    ensures
        bindings_of_all(ts).contains((x, y)) <==> exists|i: int|
            0 <= i < ts.len() && holds_let(#[trigger] ts[i], x, y),
    decreases ts, 0int,
{
    if ts.len() > 0 {
        let rest = ts.drop_first();
        assert(proper(ts[0]));
        assert forall|i: int| 0 <= i < rest.len() implies proper(#[trigger] rest[i]) by {
            assert(proper(ts[i + 1]));
        }
        lemma_holds_let(ts.first(), x, y);
        lemma_any_let(rest, x, y);
        lemma_contains_concat(bindings(ts.first()), bindings_of_all(rest), (x, y));
        if exists|i: int| 0 <= i < ts.len() && holds_let(#[trigger] ts[i], x, y) {
            let i = choose|i: int| 0 <= i < ts.len() && holds_let(#[trigger] ts[i], x, y);
            if i > 0 {
                assert(holds_let(rest[i - 1], x, y));
            }
        }
        if bindings_of_all(rest).contains((x, y)) {
            let i = choose|i: int| 0 <= i < rest.len() && holds_let(#[trigger] rest[i], x, y);
            assert(holds_let(ts[i + 1], x, y));
        }
        if bindings(ts.first()).contains((x, y)) {
            assert(holds_let(ts[0], x, y));
        }
    }
}

/// A pass inlines exactly the bindings `let x = y` of the expression for which: `y` is another
/// name, read by the binding alone and never assigned; `x` is bound by the binding alone, never
/// assigned, declared or unpacked into, and read; no execution reads `x` twice; and, should `x`
/// be read at several places, there is no unstructured graph.
pub proof fn law_inlining_is_due(exp: Exp, x: Name, y: Name)
    ensures
        inlined(exp@).contains((x, y)) <==> {
            &&& holds_let(exp@, x, y)
            &&& x != y
            &&& count(exp@, Role::Read, y) == 1
            &&& count(exp@, Role::Assign, y) == 0
            &&& count(exp@, Role::LetBind, x) == 1
            &&& count(exp@, Role::Assign, x) == 0
            &&& count(exp@, Role::Declare, x) == 0
            &&& count(exp@, Role::Unpack, x) == 0
            &&& count(exp@, Role::Read, x) >= 1
            &&& forall|n: nat| #[trigger] runs(exp@, x, n) ==> n <= 1
            &&& count(exp@, Role::Read, x) == 1 || !holds_graph(exp@)
        },
{
    lemma_exp_proper(exp);
    lemma_candidates_are_bindings(exp@, exp@, (x, y));
    lemma_holds_let(exp@, x, y);
    law_once_on_a_path(exp@, x);
}

/// Each name of the chain but the last is bound to the one after it, by a binding that is
/// inlined.
pub open spec fn leads(root: Tree, chain: Seq<Name>) -> bool {
    chain.len() > 0 && forall|i: int|
        0 <= i < chain.len() - 1 ==> inlined(root).contains((#[trigger] chain[i], chain[i + 1]))
}

/// Inlined bindings lead from `n` to `z`, and none of them introduces `z`.
pub open spec fn ends_at(root: Tree, n: Name, z: Name) -> bool {
    &&& exists|chain: Seq<Name>| #[trigger]
        leads(root, chain) && chain[0] == n && chain.last() == z
    &&& forall|y: Name| !#[trigger] inlined(root).contains((z, y))
}

/// A chain of inlined bindings is one of the substitution of the pass.
proof fn lemma_leads(exp: Exp, n: Name, chain: Seq<Name>)
    requires
        chain.len() > 0,
        chain[0] == n,
    ensures
        is_chain(sub_map(inlined(exp@)), n, chain) <==> leads(exp@, chain) && forall|y: Name|
            !#[trigger] inlined(exp@).contains((chain.last(), y)),
{
    let bs = inlined(exp@);
    let subs = sub_map(bs);
    law_substitution_of_a_pass(exp);
    let z = chain.last();
    if is_chain(subs, n, chain) {
        assert forall|i: int| 0 <= i < chain.len() - 1 implies bs.contains(
            (#[trigger] chain[i], chain[i + 1]),
        ) by {
            assert(subs.contains_key(chain[i]));
        }
        if subs.contains_key(z) {
            assert(bs.contains((z, z)));
        }
    }
    if leads(exp@, chain) && forall|y: Name| !#[trigger] bs.contains((z, y)) {
        assert forall|i: int| 0 <= i < chain.len() - 1 implies subs.contains_key(
            #[trigger] chain[i],
        ) && chain[i + 1] == subs[chain[i]] by {
            assert(bs.contains((chain[i], chain[i + 1])));
        }
        if subs.contains_key(z) {
            assert(bs.contains((z, subs[z])));
        }
    }
}

/// The bindings of a pass can be resolved exactly where each of them leads, over others that are
/// inlined too, to a name that none of them introduces.
pub proof fn law_resolvable_by_chains(exp: Exp)
    ensures
        resolvable(exp@) <==> forall|x: Name, y: Name| #[trigger]
            inlined(exp@).contains((x, y)) ==> exists|z: Name| ends_at(exp@, x, z),
{
    let bs = inlined(exp@);
    let subs = sub_map(bs);
    law_substitution_of_a_pass(exp);
    law_closure_by_chains(subs);
    if resolvable(exp@) {
        assert forall|x: Name, y: Name| #[trigger] bs.contains((x, y)) implies exists|z: Name|
            ends_at(exp@, x, z) by {
            assert(subs.contains_key(x));
            let chain = choose|chain: Seq<Name>| is_chain(subs, x, chain);
            lemma_leads(exp, x, chain);
            assert(ends_at(exp@, x, chain.last()));
        }
    }
    if forall|x: Name, y: Name| #[trigger]
        bs.contains((x, y)) ==> exists|z: Name| ends_at(exp@, x, z) {
        assert forall|n: Name| #[trigger] subs.contains_key(n) implies exists|chain: Seq<Name>|
            is_chain(subs, n, chain) by {
            assert(bs.contains((n, subs[n])));
            let z = choose|z: Name| ends_at(exp@, n, z);
            let chain = choose|chain: Seq<Name>| #[trigger]
                leads(exp@, chain) && chain[0] == n && chain.last() == z;
            lemma_leads(exp, n, chain);
            assert(is_chain(subs, n, chain));
        }
    }
}

/// A pass reads a name under the one to which its inlined bindings lead.
pub proof fn law_names_lead_to_their_source(exp: Exp, n: Name)
    requires
        resolvable(exp@),
    ensures
        ends_at(exp@, n, becomes(exp@, n)),
{
    let subs = sub_map(inlined(exp@));
    law_closure_by_chains(subs);
    let chain = if subs.contains_key(n) {
        choose|chain: Seq<Name>| is_chain(subs, n, chain)
    } else {
        seq![n]
    };
    assert(is_chain(subs, n, chain));
    lemma_leads(exp, n, chain);
    assert(chain.last() == becomes(exp@, n));
}

/// `t` is a binding that is inlined.
pub open spec fn goes(t: Tree, root: Tree) -> bool {
    exists|x: Name, y: Name| #[trigger] lets(t, x, y) && inlined(root).contains((x, y))
}

/// The positions, in order, of all items that are not inlined bindings.
pub open spec fn keeps(items: Seq<Tree>, at: Seq<int>, root: Tree) -> bool {
    &&& forall|j: int| 0 <= j < at.len() ==> 0 <= #[trigger] at[j] < items.len()
    &&& forall|i: int, j: int| 0 <= i < j < at.len() ==> #[trigger] at[i] < #[trigger] at[j]
    &&& forall|i: int|
        0 <= i < items.len() ==> (at.contains(i) <==> !goes(#[trigger] items[i], root))
}

/// `u` is `t` rewritten: each variable is read under the name to which the inlined bindings of
/// `root` lead, these bindings are gone from the sequences, and all else is as it was and where
/// it was.
pub open spec fn rewrites(t: Tree, u: Tree, root: Tree) -> bool
    decreases t,
{
    match t.op {
        Op::Variable(n) => u.kids.len() == 0 && exists|z: Name|
            u.op == Op::Variable(z) && #[trigger] ends_at(root, n, z),
        Op::Sequence => u.op is Sequence && exists|at: Seq<int>| #[trigger]
            keeps(t.kids, at, root) && at.len() == u.kids.len() && forall|j: int|
                0 <= j < at.len() ==> 0 <= at[j] < t.kids.len() && rewrites(
                    t.kids[at[j]],
                    #[trigger] u.kids[j],
                    root,
                ),
        _ => {
            &&& u.op == t.op
            &&& u.kids.len() == t.kids.len()
            &&& forall|i: int|
                0 <= i < t.kids.len() ==> rewrites(#[trigger] t.kids[i], u.kids[i], root)
        },
    }
}

proof fn lemma_goes(exp: Exp, t: Tree)
    requires
        proper(t),
    ensures
        goes(t, exp@) <==> dropped(t, inlined(exp@).to_set()),
{
    let bs = inlined(exp@);
    if goes(t, exp@) {
        let (x, y) = choose|x: Name, y: Name| #[trigger] lets(t, x, y) && bs.contains((x, y));
        lemma_lets(t, x, y);
        assert(bs.to_set().contains((x, y)));
    }
    if dropped(t, bs.to_set()) {
        let b = binding(t)->0;
        lemma_lets(t, b.0, b.1);
        assert(lets(t, b.0, b.1));
    }
}

/// The items that are kept, and where they stood.
proof fn lemma_keeps(exp: Exp, ts: Seq<Tree>) -> (at: Seq<int>)
    requires
        forall|i: int| 0 <= i < ts.len() ==> proper(#[trigger] ts[i]),
    ensures
        keeps(ts, at, exp@),
        ({
            let drops = inlined(exp@).to_set();
            let subs = closure(sub_map(inlined(exp@)));
            &&& applied_to_kept(ts, drops, subs).len() == at.len()
            &&& forall|j: int|
                0 <= j < at.len() ==> #[trigger] applied_to_kept(ts, drops, subs)[j] == applied(
                    ts[at[j]],
                    drops,
                    subs,
                )
        }),
    decreases ts.len(),
{
    let drops = inlined(exp@).to_set();
    let subs = closure(sub_map(inlined(exp@)));
    if ts.len() == 0 {
        seq![]
    } else {
        let rest = ts.drop_first();
        assert forall|i: int| 0 <= i < rest.len() implies proper(#[trigger] rest[i]) by {
            assert(proper(ts[i + 1]));
        }
        let later = lemma_keeps(exp, rest);
        let moved = Seq::new(later.len(), |j: int| later[j] + 1);
        assert(proper(ts[0]));
        lemma_goes(exp, ts.first());
        let kept = applied_to_kept(rest, drops, subs);
        let gone = dropped(ts.first(), drops);
        let at = if gone {
            moved
        } else {
            seq![0int] + moved
        };
        let off: int = if gone {
            0
        } else {
            1
        };
        let all = applied_to_kept(ts, drops, subs);
        assert forall|j: int| off <= j < at.len() implies #[trigger] at[j] == later[j - off] + 1
            && all[j] == kept[j - off] by {}
        assert forall|i: int| 0 <= i < ts.len() implies (at.contains(i) <==> !goes(
            #[trigger] ts[i],
            exp@,
        )) by {
            if i == 0 {
                if gone {
                    assert forall|j: int| 0 <= j < at.len() implies #[trigger] at[j] != 0 by {
                        assert(0 <= later[j]);
                    }
                } else {
                    assert(at[0] == 0);
                }
            } else {
                assert(rest[i - 1] == ts[i]);
                if later.contains(i - 1) {
                    let j = choose|j: int| 0 <= j < later.len() && later[j] == i - 1;
                    assert(at[j + off] == i);
                }
                if at.contains(i) {
                    let j = choose|j: int| 0 <= j < at.len() && at[j] == i;
                    assert(j >= off);
                    assert(later[j - off] == i - 1);
                }
            }
        }
        assert forall|i: int, j: int| 0 <= i < j < at.len() implies #[trigger] at[i]
            < #[trigger] at[j] by {
            assert(0 <= later[j - off]);
            if i >= off {
                assert(later[i - off] < later[j - off]);
            }
        }
        assert forall|j: int| 0 <= j < at.len() implies 0 <= #[trigger] at[j] < ts.len() by {
            if j >= off {
                assert(0 <= later[j - off] < rest.len());
            }
        }
        assert forall|j: int| 0 <= j < at.len() implies #[trigger] all[j] == applied(
            ts[at[j]],
            drops,
            subs,
        ) by {
            if j >= off {
                assert(all[j] == kept[j - off]);
                assert(0 <= later[j - off] < rest.len());
                assert(rest[later[j - off]] == ts[at[j]]);
            }
        }
        at
    }
}

proof fn lemma_rewrites(exp: Exp, t: Tree)
    requires
        resolvable(exp@),
        proper(t),
    ensures
        rewrites(
            t,
            applied(t, inlined(exp@).to_set(), closure(sub_map(inlined(exp@)))),
            exp@,
        ),
    decreases t,
{
    let drops = inlined(exp@).to_set();
    let subs = closure(sub_map(inlined(exp@)));
    let u = applied(t, drops, subs);
    match t.op {
        Op::Variable(n) => {
            law_names_lead_to_their_source(exp, n);
            assert(u.op == Op::Variable(becomes(exp@, n)));
        },
        Op::Sequence => {
            let at = lemma_keeps(exp, t.kids);
            assert forall|j: int| 0 <= j < at.len() implies 0 <= at[j] < t.kids.len() && rewrites(
                t.kids[at[j]],
                #[trigger] u.kids[j],
                exp@,
            ) by {
                assert(0 <= at[j] < t.kids.len());
                lemma_rewrites(exp, t.kids[at[j]]);
            }
            assert(keeps(t.kids, at, exp@));
        },
        _ => {
            lemma_applied_to_all(t.kids, drops, subs);
            assert forall|i: int| 0 <= i < t.kids.len() implies rewrites(
                #[trigger] t.kids[i],
                u.kids[i],
                exp@,
            ) by {
                assert(applied_to_all(t.kids, drops, subs)[i] == applied(t.kids[i], drops, subs));
                lemma_rewrites(exp, t.kids[i]);
            }
        },
    }
}

/// What a pass makes of an expression is the expression rewritten by the bindings that it
/// inlines.
pub proof fn law_pass_rewrites(exp: Exp)
    requires
        resolvable(exp@),
    ensures
        rewrites(exp@, refined(exp@), exp@),
{
    lemma_exp_proper(exp);
    lemma_rewrites(exp, exp@);
}

} // verus!
