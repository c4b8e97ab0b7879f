//! The languages of the automata that the combinators build, and the laws
//! that relate them.
use crate::automaton::{fallthrough, shifted, shifted_edges, NFA};
use vstd::prelude::*;

verus! {

/// `r` accepts the empty word and nothing else.
pub open spec fn accepts_only_empty(r: NFA) -> bool {
    forall|s: Seq<char>| #[trigger] r.accepts(s) <==> s.len() == 0
}

/// `r` accepts the one-symbol word `[c]` and nothing else.
pub open spec fn accepts_only_symbol(r: NFA, c: char) -> bool {
    forall|s: Seq<char>| #[trigger] r.accepts(s) <==> s == seq![c]
}

/// `r` accepts exactly the words that `a` or `b` accepts.
pub open spec fn is_union_of(a: NFA, b: NFA, r: NFA) -> bool {
    forall|s: Seq<char>| #[trigger] r.accepts(s) <==> a.accepts(s) || b.accepts(s)
}

/// `s` splits into a prefix that `a` accepts and a suffix that `b` accepts.
pub open spec fn splits(a: NFA, b: NFA, s: Seq<char>) -> bool {
    exists|i: int| 0 <= i <= s.len() && #[trigger] a.accepts(s.take(i)) && b.accepts(s.skip(i))
}

/// `r` accepts exactly the words that split into a word of `a` followed by a
/// word of `b`.
pub open spec fn is_concat_of(a: NFA, b: NFA, r: NFA) -> bool {
    forall|s: Seq<char>| #[trigger] r.accepts(s) <==> splits(a, b, s)
}

/// `s` is a concatenation of zero or more words that `a` accepts.
pub open spec fn in_star(a: NFA, s: Seq<char>) -> bool {
    exists|ws: Seq<Seq<char>>|
        #[trigger] ws.flatten() == s && forall|k: int| 0 <= k < ws.len() ==> a.accepts(#[trigger] ws[k])
}

/// No nonempty word leads `a` from its starting states to a starting state
/// that does not accept.
pub open spec fn no_restart(a: NFA) -> bool {
    forall|s: Seq<char>, q: nat|
        s.len() > 0 && #[trigger] a.reach(s).contains(q) && a.start().contains(q)
            ==> a.accept().contains(q)
}

/// Every state reached lies below the state count.
pub proof fn lemma_reach_below(a: NFA, s: Seq<char>)
    requires
        a.wf(),
    ensures
        forall|q: nat| #[trigger] a.reach(s).contains(q) ==> q < a.count(),
{
    if s.len() > 0 {
        assert forall|q: nat| #[trigger] a.reach(s).contains(q) implies q < a.count() by {
            let p = choose|p: nat|
                a.reach(s.drop_last()).contains(p) && #[trigger] a.edges().contains(
                    (p, s.last(), q),
                );
        }
    }
}

/// Reading `u` and then `v` reaches what reading `u + v` reaches.
pub proof fn lemma_reach_append(a: NFA, from: Set<nat>, u: Seq<char>, v: Seq<char>)
    ensures
        a.reach_from(from, u + v) == a.reach_from(a.reach_from(from, u), v),
    decreases v.len(),
{
    if v.len() == 0 {
        assert(u + v =~= u);
    } else {
        lemma_reach_append(a, from, u, v.drop_last());
        assert((u + v).drop_last() =~= u + v.drop_last());
        assert((u + v).last() == v.last());
    }
}

/// Where each transition of `a` appears in `r` with both ends moved up by
/// `k`, `r` follows every run of `a`, moved up by `k`.
pub proof fn lemma_simulate(a: NFA, r: NFA, k: nat, fa: Set<nat>, fr: Set<nat>, s: Seq<char>)
    requires
        forall|p: nat, c: char, q: nat| #[trigger]
            a.edges().contains((p, c, q)) ==> r.edges().contains(((p + k) as nat, c, (q + k) as nat)),
        forall|p: nat| #[trigger] fa.contains(p) ==> fr.contains((p + k) as nat),
    ensures
        forall|q: nat| #[trigger]
            a.reach_from(fa, s).contains(q) ==> r.reach_from(fr, s).contains((q + k) as nat),
    decreases s.len(),
{
    if s.len() > 0 {
        lemma_simulate(a, r, k, fa, fr, s.drop_last());
        assert forall|q: nat| #[trigger] a.reach_from(fa, s).contains(q) implies r.reach_from(
            fr,
            s,
        ).contains((q + k) as nat) by {
            let p = choose|p: nat|
                a.reach_from(fa, s.drop_last()).contains(p) && #[trigger] a.edges().contains(
                    (p, s.last(), q),
                );
            assert(r.edges().contains(((p + k) as nat, s.last(), (q + k) as nat)));
            assert(r.reach_from(fr, s.drop_last()).contains((p + k) as nat));
        }
    }
}

/// The language of an automaton shaped as `empty` builds it.
pub(crate) proof fn lemma_empty_language(r: NFA)
    requires
        r.start() == set![0nat],
        r.accept() == set![0nat],
        r.edges() == Set::<(nat, char, nat)>::empty(),
    ensures
        accepts_only_empty(r),
{
    assert forall|s: Seq<char>| #[trigger] r.accepts(s) <==> s.len() == 0 by {
        if s.len() == 0 {
            assert(r.reach(s).contains(0nat));
        } else {
            assert forall|q: nat| !r.reach(s).contains(q) by {
                if r.reach(s).contains(q) {
                    let p = choose|p: nat|
                        r.reach(s.drop_last()).contains(p) && #[trigger] r.edges().contains(
                            (p, s.last(), q),
                        );
                }
            }
        }
    }
}

proof fn lemma_unit_reach(r: NFA, c: char, s: Seq<char>)
    requires
        r.start() == set![0nat],
        r.edges() == set![(0nat, c, 1nat)],
    ensures
        forall|q: nat|
            s.len() > 0 && #[trigger] r.reach(s).contains(q) ==> q == 1 && s == seq![c],
    decreases s.len(),
{
    if s.len() > 0 {
        lemma_unit_reach(r, c, s.drop_last());
        assert forall|q: nat| #[trigger] r.reach(s).contains(q) implies q == 1 && s == seq![c] by {
            let p = choose|p: nat|
                r.reach(s.drop_last()).contains(p) && #[trigger] r.edges().contains(
                    (p, s.last(), q),
                );
            assert((p, s.last(), q) == (0nat, c, 1nat));
            assert(s.drop_last().len() == 0);
            assert(s =~= seq![c]);
        }
    }
}

/// The language of an automaton shaped as `unit(c)` builds it.
pub(crate) proof fn lemma_unit_language(r: NFA, c: char)
    requires
        r.start() == set![0nat],
        r.accept() == set![1nat],
        r.edges() == set![(0nat, c, 1nat)],
    ensures
        accepts_only_symbol(r, c),
{
    assert forall|s: Seq<char>| #[trigger] r.accepts(s) <==> s == seq![c] by {
        lemma_unit_reach(r, c, s);
        if s == seq![c] {
            assert(s.drop_last() =~= Seq::<char>::empty());
            assert(r.reach(s.drop_last()).contains(0nat));
            assert(r.edges().contains((0nat, c, 1nat)));
            assert(r.reach(s).contains(1nat));
        } else if r.accepts(s) {
            let q = choose|q: nat| #[trigger] r.reach(s).contains(q) && r.accept().contains(q);
            if s.len() == 0 {
                assert(r.start().contains(q));
            }
        }
    }
}

proof fn lemma_union_reach(a: NFA, b: NFA, r: NFA, s: Seq<char>)
    requires
        a.wf(),
        b.wf(),
        r.start() == a.start() + shifted(b.start(), a.count()),
        r.edges() == a.edges() + shifted_edges(b.edges(), a.count()),
    ensures
        forall|q: nat| #[trigger]
            r.reach(s).contains(q) ==> (q < a.count() && a.reach(s).contains(q)) || (q
                >= a.count() && b.reach(s).contains((q - a.count()) as nat)),
    decreases s.len(),
{
    let n = a.count();
    if s.len() > 0 {
        lemma_union_reach(a, b, r, s.drop_last());
        assert forall|q: nat| #[trigger] r.reach(s).contains(q) implies (q < n && a.reach(
            s,
        ).contains(q)) || (q >= n && b.reach(s).contains((q - n) as nat)) by {
            let c = s.last();
            let p = choose|p: nat|
                r.reach(s.drop_last()).contains(p) && #[trigger] r.edges().contains((p, c, q));
            if a.edges().contains((p, c, q)) {
                assert(a.reach(s.drop_last()).contains(p));
            } else {
                assert(b.edges().contains(((p - n) as nat, c, (q - n) as nat)));
                assert(b.reach(s.drop_last()).contains((p - n) as nat));
            }
        }
    }
}

/// The language of an automaton shaped as `plus(a, b)` builds it.
pub(crate) proof fn lemma_union_language(a: NFA, b: NFA, r: NFA)
    requires
        a.wf(),
        b.wf(),
        r.start() == a.start() + shifted(b.start(), a.count()),
        r.accept() == a.accept() + shifted(b.accept(), a.count()),
        r.edges() == a.edges() + shifted_edges(b.edges(), a.count()),
    ensures
        is_union_of(a, b, r),
{
    let n = a.count();
    assert forall|s: Seq<char>| #[trigger] r.accepts(s) <==> a.accepts(s) || b.accepts(s) by {
        lemma_union_reach(a, b, r, s);
        lemma_reach_below(a, s);
        lemma_simulate(a, r, 0, a.start(), r.start(), s);
        lemma_simulate(b, r, n, b.start(), r.start(), s);
        if r.accepts(s) {
            let q = choose|q: nat| #[trigger] r.reach(s).contains(q) && r.accept().contains(q);
            if q < n {
                assert(a.reach(s).contains(q) && a.accept().contains(q));
            } else {
                assert(b.reach(s).contains((q - n) as nat) && b.accept().contains((q - n) as nat));
            }
        }
        if a.accepts(s) {
            let q = choose|q: nat| #[trigger] a.reach(s).contains(q) && a.accept().contains(q);
            assert(r.reach(s).contains((q + 0) as nat));
        }
        if b.accepts(s) {
            let q = choose|q: nat| #[trigger] b.reach(s).contains(q) && b.accept().contains(q);
            assert(r.reach(s).contains((q + n) as nat));
            assert(r.accept().contains((q + n) as nat));
        }
    }
}

proof fn lemma_concat_reach(a: NFA, b: NFA, r: NFA, s: Seq<char>)
    requires
        a.wf(),
        b.wf(),
        r.start() == a.start() + if exists|q: nat|
            a.start().contains(q) && a.accept().contains(q) {
            shifted(b.start(), a.count())
        } else {
            Set::empty()
        },
        r.edges() == a.edges() + fallthrough(a.edges(), a.accept(), shifted(b.start(), a.count()))
            + shifted_edges(b.edges(), a.count()),
    ensures
        forall|q: nat| #[trigger]
            r.reach(s).contains(q) ==> (q < a.count() && a.reach(s).contains(q)) || (q
                >= a.count() && exists|i: int|
                0 <= i <= s.len() && a.accepts(s.take(i)) && #[trigger] b.reach(s.skip(i)).contains(
                    (q - a.count()) as nat,
                )),
    decreases s.len(),
{
    let n = a.count();
    if s.len() == 0 {
        assert forall|q: nat| #[trigger] r.reach(s).contains(q) implies (q < n && a.reach(
            s,
        ).contains(q)) || (q >= n && exists|i: int|
            0 <= i <= s.len() && a.accepts(s.take(i)) && #[trigger] b.reach(s.skip(i)).contains(
                (q - n) as nat,
            )) by {
            if !a.start().contains(q) {
                let m = choose|m: nat| a.start().contains(m) && a.accept().contains(m);
                assert(s.take(0) =~= s);
                assert(s.skip(0) =~= s);
                assert(a.reach(s.take(0)).contains(m));
                assert(b.reach(s.skip(0)).contains((q - n) as nat));
            }
        }
    } else {
        let t = s.drop_last();
        let c = s.last();
        lemma_concat_reach(a, b, r, t);
        assert forall|q: nat| #[trigger] r.reach(s).contains(q) implies (q < n && a.reach(
            s,
        ).contains(q)) || (q >= n && exists|i: int|
            0 <= i <= s.len() && a.accepts(s.take(i)) && #[trigger] b.reach(s.skip(i)).contains(
                (q - n) as nat,
            )) by {
            let p = choose|p: nat| r.reach(t).contains(p) && #[trigger] r.edges().contains((p, c, q));
            if a.edges().contains((p, c, q)) {
                assert(a.reach(t).contains(p));
            } else if fallthrough(a.edges(), a.accept(), shifted(b.start(), n)).contains((p, c, q)) {
                let m = choose|m: nat| #[trigger]
                    a.edges().contains((p, c, m)) && a.accept().contains(m);
                assert(a.reach(t).contains(p));
                assert(a.reach(s).contains(m));
                let i = s.len() as int;
                assert(s.take(i) =~= s);
                assert(s.skip(i) =~= Seq::<char>::empty());
                assert(a.accepts(s.take(i)));
                assert(b.reach(s.skip(i)).contains((q - n) as nat));
            } else {
                assert(b.edges().contains(((p - n) as nat, c, (q - n) as nat)));
                let i = choose|i: int|
                    0 <= i <= t.len() && a.accepts(t.take(i)) && #[trigger] b.reach(
                        t.skip(i),
                    ).contains((p - n) as nat);
                assert(s.take(i) =~= t.take(i));
                assert(s.skip(i).drop_last() =~= t.skip(i));
                assert(s.skip(i).last() == c);
                assert(b.reach(s.skip(i)).contains((q - n) as nat));
            }
        }
    }
}

/// The language of an automaton shaped as `times(a, b)` builds it.
pub(crate) proof fn lemma_concat_language(a: NFA, b: NFA, r: NFA)
    requires
        a.wf(),
        b.wf(),
        r.start() == a.start() + if exists|q: nat|
            a.start().contains(q) && a.accept().contains(q) {
            shifted(b.start(), a.count())
        } else {
            Set::empty()
        },
        r.accept() == shifted(b.accept(), a.count()),
        r.edges() == a.edges() + fallthrough(a.edges(), a.accept(), shifted(b.start(), a.count()))
            + shifted_edges(b.edges(), a.count()),
    ensures
        is_concat_of(a, b, r),
{
    let n = a.count();
    assert forall|s: Seq<char>| #[trigger] r.accepts(s) <==> splits(a, b, s) by {
        lemma_concat_reach(a, b, r, s);
        if r.accepts(s) {
            let q = choose|q: nat| #[trigger] r.reach(s).contains(q) && r.accept().contains(q);
            let i = choose|i: int|
                0 <= i <= s.len() && a.accepts(s.take(i)) && #[trigger] b.reach(s.skip(i)).contains(
                    (q - n) as nat,
                );
            assert(b.accepts(s.skip(i)));
        }
        if splits(a, b, s) {
            let i = choose|i: int|
                0 <= i <= s.len() && #[trigger] a.accepts(s.take(i)) && b.accepts(s.skip(i));
            let u = s.take(i);
            let v = s.skip(i);
            let qa = choose|q: nat| #[trigger] a.reach(u).contains(q) && a.accept().contains(q);
            let qb = choose|q: nat| #[trigger] b.reach(v).contains(q) && b.accept().contains(q);
            assert forall|t: nat| #[trigger]
                b.start().contains(t) implies r.reach(u).contains((t + n) as nat) by {
                if u.len() == 0 {
                    assert(a.start().contains(qa));
                } else {
                    let c = u.last();
                    let p = choose|p: nat|
                        a.reach(u.drop_last()).contains(p) && #[trigger] a.edges().contains(
                            (p, c, qa),
                        );
                    lemma_simulate(a, r, 0, a.start(), r.start(), u.drop_last());
                    assert(r.reach(u.drop_last()).contains((p + 0) as nat));
                    assert((((t + n) as nat) - n) as nat == t);
                    assert(shifted(b.start(), n).contains((t + n) as nat));
                    let tt = (p, c, (t + n) as nat);
                    assert(a.edges().contains((tt.0, tt.1, qa)) && a.accept().contains(qa));
                    assert(fallthrough(a.edges(), a.accept(), shifted(b.start(), n)).contains(tt));
                    assert(r.edges().contains((p, c, (t + n) as nat)));
                }
            }
            lemma_simulate(b, r, n, b.start(), r.reach(u), v);
            lemma_reach_append(r, r.start(), u, v);
            assert(u + v =~= s);
            assert(r.reach(s).contains((qb + n) as nat));
            assert(r.accept().contains((qb + n) as nat));
        }
    }
}

proof fn lemma_flatten_push(ws: Seq<Seq<char>>, w: Seq<char>)
    ensures
        ws.push(w).flatten() == ws.flatten() + w,
{
    ws.lemma_flatten_and_flatten_alt_are_equivalent();
    ws.push(w).lemma_flatten_and_flatten_alt_are_equivalent();
    assert(ws.push(w).drop_last() =~= ws);
}

/// Appending a word of `a` to a concatenation of words of `a` gives one.
proof fn lemma_in_star_extend(a: NFA, u: Seq<char>, w: Seq<char>)
    requires
        in_star(a, u),
        a.accepts(w),
    ensures
        in_star(a, u + w),
{
    let ws = choose|ws: Seq<Seq<char>>|
        #[trigger] ws.flatten() == u && forall|k: int| 0 <= k < ws.len() ==> a.accepts(#[trigger] ws[k]);
    lemma_flatten_push(ws, w);
    let ws2 = ws.push(w);
    assert forall|k: int| 0 <= k < ws2.len() implies a.accepts(#[trigger] ws2[k]) by {
        if k < ws.len() {
            assert(ws2[k] == ws[k]);
        }
    }
}

proof fn lemma_in_star_empty(a: NFA)
    ensures
        in_star(a, Seq::<char>::empty()),
{
    let ws = Seq::<Seq<char>>::empty();
    assert(ws.flatten() =~= Seq::<char>::empty());
}

proof fn lemma_star_reach(a: NFA, r: NFA, s: Seq<char>)
    requires
        a.wf(),
        r.start() == a.start(),
        r.edges() == a.edges() + fallthrough(a.edges(), a.accept(), a.start()),
    ensures
        forall|q: nat| #[trigger]
            r.reach(s).contains(q) ==> exists|i: int|
                0 <= i <= s.len() && in_star(a, s.take(i)) && #[trigger] a.reach(
                    s.skip(i),
                ).contains(q),
    decreases s.len(),
{
    if s.len() == 0 {
        lemma_in_star_empty(a);
        assert forall|q: nat| #[trigger] r.reach(s).contains(q) implies exists|i: int|
            0 <= i <= s.len() && in_star(a, s.take(i)) && #[trigger] a.reach(s.skip(i)).contains(
                q,
            ) by {
            assert(s.take(0) =~= Seq::<char>::empty());
            assert(s.skip(0) =~= s);
            assert(a.reach(s.skip(0)).contains(q));
        }
    } else {
        let t = s.drop_last();
        let c = s.last();
        lemma_star_reach(a, r, t);
        assert forall|q: nat| #[trigger] r.reach(s).contains(q) implies exists|i: int|
            0 <= i <= s.len() && in_star(a, s.take(i)) && #[trigger] a.reach(s.skip(i)).contains(
                q,
            ) by {
            let p = choose|p: nat| r.reach(t).contains(p) && #[trigger] r.edges().contains((p, c, q));
            let i = choose|i: int|
                0 <= i <= t.len() && in_star(a, t.take(i)) && #[trigger] a.reach(
                    t.skip(i),
                ).contains(p);
            assert(s.take(i) =~= t.take(i));
            assert(s.skip(i).drop_last() =~= t.skip(i));
            assert(s.skip(i).last() == c);
            if a.edges().contains((p, c, q)) {
                assert(a.reach(s.skip(i)).contains(q));
            } else {
                let m = choose|m: nat| #[trigger]
                    a.edges().contains((p, c, m)) && a.accept().contains(m);
                assert(a.reach(s.skip(i)).contains(m));
                assert(a.accepts(s.skip(i)));
                let j = s.len() as int;
                assert(s.take(j) =~= s);
                assert(s.skip(j) =~= Seq::<char>::empty());
                lemma_in_star_extend(a, s.take(i), s.skip(i));
                assert(s.take(i) + s.skip(i) =~= s);
                assert(in_star(a, s.take(j)));
                assert(a.reach(s.skip(j)).contains(q));
            }
        }
    }
}

proof fn lemma_star_restarts(a: NFA, r: NFA, ws: Seq<Seq<char>>)
    requires
        a.wf(),
        r.start() == a.start(),
        r.edges() == a.edges() + fallthrough(a.edges(), a.accept(), a.start()),
        forall|k: int| 0 <= k < ws.len() ==> a.accepts(#[trigger] ws[k]),
    ensures
        forall|q: nat| #[trigger] a.start().contains(q) ==> r.reach(ws.flatten()).contains(q),
    decreases ws.len(),
{
    if ws.len() == 0 {
        assert(ws.flatten() =~= Seq::<char>::empty());
    } else {
        let vs = ws.drop_last();
        let w = ws.last();
        assert(ws =~= vs.push(w));
        lemma_flatten_push(vs, w);
        assert forall|k: int| 0 <= k < vs.len() implies a.accepts(#[trigger] vs[k]) by {
            assert(vs[k] == ws[k]);
        }
        assert(a.accepts(ws[ws.len() - 1]));
        lemma_star_restarts(a, r, vs);
        let u = vs.flatten();
        let s = ws.flatten();
        if w.len() == 0 {
            assert(s =~= u);
        } else {
            let qa = choose|q: nat| #[trigger] a.reach(w).contains(q) && a.accept().contains(q);
            let c = w.last();
            let p = choose|p: nat|
                a.reach(w.drop_last()).contains(p) && #[trigger] a.edges().contains((p, c, qa));
            lemma_simulate(a, r, 0, a.start(), r.reach(u), w.drop_last());
            lemma_reach_append(r, r.start(), u, w.drop_last());
            assert(u + w.drop_last() =~= s.drop_last());
            assert(s.last() == c);
            assert(r.reach(s.drop_last()).contains((p + 0) as nat));
            assert forall|q: nat| #[trigger] a.start().contains(q) implies r.reach(s).contains(q) by {
                let tt = (p, c, q);
                assert(a.edges().contains((tt.0, tt.1, qa)) && a.accept().contains(qa));
                assert(fallthrough(a.edges(), a.accept(), a.start()).contains(tt));
                assert(r.edges().contains(tt));
            }
        }
    }
}

/// The language of an automaton shaped as `star(a)` builds it: it accepts
/// every concatenation of words of `a`, and, where no nonempty word leads `a`
/// back to a starting state that does not accept, nothing else.
pub(crate) proof fn lemma_star_language(a: NFA, r: NFA)
    requires
        a.wf(),
        r.start() == a.start(),
        r.accept() == a.accept() + a.start(),
        r.edges() == a.edges() + fallthrough(a.edges(), a.accept(), a.start()),
    ensures
        forall|s: Seq<char>| #[trigger] in_star(a, s) ==> r.accepts(s),
        no_restart(a) ==> forall|s: Seq<char>| #[trigger] r.accepts(s) <==> in_star(a, s),
{
    assert forall|s: Seq<char>| #[trigger] in_star(a, s) implies r.accepts(s) by {
        let ws = choose|ws: Seq<Seq<char>>|
            #[trigger] ws.flatten() == s && forall|k: int| 0 <= k < ws.len() ==> a.accepts(#[trigger] ws[k]);
        lemma_star_restarts(a, r, ws);
        let q = choose|q: nat| a.start().contains(q);
        assert(r.reach(s).contains(q));
    }
    if no_restart(a) {
        assert forall|s: Seq<char>| #[trigger] r.accepts(s) implies in_star(a, s) by {
            lemma_star_reach(a, r, s);
            let q = choose|q: nat| #[trigger] r.reach(s).contains(q) && r.accept().contains(q);
            let i = choose|i: int|
                0 <= i <= s.len() && in_star(a, s.take(i)) && #[trigger] a.reach(
                    s.skip(i),
                ).contains(q);
            if i == s.len() {
                assert(s.take(i) =~= s);
            } else if a.accept().contains(q) {
                assert(a.accepts(s.skip(i)));
                lemma_in_star_extend(a, s.take(i), s.skip(i));
                assert(s.take(i) + s.skip(i) =~= s);
            } else {
                assert(s.skip(i).len() > 0);
                assert(a.accept().contains(q));
            }
        }
    }
}

/// Concatenating an automaton with one of the empty word, on either side,
/// keeps its language.
pub proof fn lemma_concat_identity(a: NFA, e: NFA, left: NFA, right: NFA)
    requires
        accepts_only_empty(e),
        is_concat_of(e, a, left),
        is_concat_of(a, e, right),
    ensures
        forall|s: Seq<char>| #[trigger] left.accepts(s) == a.accepts(s),
        forall|s: Seq<char>| #[trigger] right.accepts(s) == a.accepts(s),
{
    assert forall|s: Seq<char>| #[trigger] left.accepts(s) == a.accepts(s) by {
        if left.accepts(s) {
            let i = choose|i: int|
                0 <= i <= s.len() && #[trigger] e.accepts(s.take(i)) && a.accepts(s.skip(i));
            assert(s.take(i).len() == 0);
            assert(s.skip(i) =~= s);
        }
        if a.accepts(s) {
            assert(s.take(0).len() == 0);
            assert(e.accepts(s.take(0)));
            assert(s.skip(0) =~= s);
        }
    }
    assert forall|s: Seq<char>| #[trigger] right.accepts(s) == a.accepts(s) by {
        if right.accepts(s) {
            let i = choose|i: int|
                0 <= i <= s.len() && #[trigger] a.accepts(s.take(i)) && e.accepts(s.skip(i));
            assert(s.skip(i).len() == 0);
            assert(s.take(i) =~= s);
        }
        if a.accepts(s) {
            let n = s.len() as int;
            assert(s.skip(n).len() == 0);
            assert(e.accepts(s.skip(n)));
            assert(s.take(n) =~= s);
        }
    }
}

} // verus!
