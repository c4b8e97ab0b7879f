use crate::laws::{
    accepts_only_empty, accepts_only_symbol, in_star, is_concat_of, is_union_of,
    lemma_concat_language, lemma_empty_language, lemma_star_language, lemma_union_language,
    lemma_unit_language, no_restart,
};
use char_stream::CharStream;
use vstd::prelude::*;

verus! {

/// The symbol stream of the `char_stream` crate, carried through as an opaque
/// value.
#[verifier::external_type_specification]
#[verifier::external_body]
pub struct ExCharStream(CharStream);

/// Relies on `CharStream`'s `Iterator::next`: draws the symbols left in the
/// stream, in order, until it yields `None`. What they are depends on the
/// stream's source (a string, a file, standard input), so nothing is stated.
#[verifier::external_body]
fn drain(stream: &mut CharStream) -> (r: Vec<char>) {
    stream.by_ref().collect()
}

/// An automaton: `states` ids `0..states`, a set of starting ids, a list of
/// transitions `(from, symbol, to)` and a set of accepting ids.
#[derive(Debug)]
pub struct NFA {
    states: usize,
    starting: Vec<usize>,
    delta: Vec<(usize, char, usize)>,
    finished: Vec<usize>,
}

pub open spec fn edge_of(t: (usize, char, usize)) -> (nat, char, nat) {
    (t.0 as nat, t.1, t.2 as nat)
}

/// The ids of a list, as a set.
pub open spec fn ids_of(v: Seq<usize>) -> Set<nat> {
    Set::new(|q: nat| exists|i: int| 0 <= i < v.len() && v[i] as nat == q)
}

/// `s` with every id moved up by `k`.
pub open spec fn shifted(s: Set<nat>, k: nat) -> Set<nat> {
    Set::new(|q: nat| q >= k && s.contains((q - k) as nat))
}

/// The transitions of a list, as a set of triples.
pub open spec fn edge_set(v: Seq<(usize, char, usize)>) -> Set<(nat, char, nat)> {
    Set::new(|e: (nat, char, nat)| exists|i: int| 0 <= i < v.len() && edge_of(v[i]) == e)
}

/// `e` with both ends of every transition moved up by `k`.
pub open spec fn shifted_edges(e: Set<(nat, char, nat)>, k: nat) -> Set<(nat, char, nat)> {
    Set::new(
        |t: (nat, char, nat)|
            t.0 >= k && t.2 >= k && e.contains(((t.0 - k) as nat, t.1, (t.2 - k) as nat)),
    )
}

/// The transitions `(p, c, s)`, one for each transition `(p, c, q)` of `e`
/// with `q` in `acc` and each `s` in `targets`.
pub open spec fn fallthrough(e: Set<(nat, char, nat)>, acc: Set<nat>, targets: Set<nat>) -> Set<
    (nat, char, nat),
> {
    Set::new(
        |t: (nat, char, nat)|
            targets.contains(t.2) && exists|q: nat| #[trigger]
                e.contains((t.0, t.1, q)) && acc.contains(q),
    )
}

impl NFA {
    /// The number of states.
    pub closed spec fn count(&self) -> nat {
        self.states as nat
    }

    /// The starting states.
    pub closed spec fn start(&self) -> Set<nat> {
        ids_of(self.starting@)
    }

    /// The accepting states.
    pub closed spec fn accept(&self) -> Set<nat> {
        ids_of(self.finished@)
    }

    /// The transition relation, as triples `(from, symbol, to)`.
    pub closed spec fn edges(&self) -> Set<(nat, char, nat)> {
        edge_set(self.delta@)
    }

    /// Every id in the automaton lies below its state count, and there is at
    /// least one starting state.
    pub open spec fn wf(&self) -> bool {
        &&& forall|q: nat| #[trigger] self.start().contains(q) ==> q < self.count()
        &&& forall|q: nat| #[trigger] self.accept().contains(q) ==> q < self.count()
        &&& forall|p: nat, c: char, q: nat|
            #[trigger] self.edges().contains((p, c, q)) ==> p < self.count() && q < self.count()
        &&& exists|q: nat| #[trigger] self.start().contains(q)
    }
}

/// Whether `x` is among the ids of `v`.
fn contains_id(v: &Vec<usize>, x: usize) -> (r: bool)
    ensures
        r == ids_of(v@).contains(x as nat),
{
    let mut j: usize = 0;
    while j < v.len()
        invariant
            0 <= j <= v@.len(),
            forall|i: int| 0 <= i < j ==> v@[i] != x,
        decreases v@.len() - j,
    {
        if v[j] == x {
            assert(v@[j as int] as nat == x as nat);
            return true;
        }
        j += 1;
    }
    false
}

/// Appends `v[i] + k` to `out` for each `i`.
fn push_shifted(v: &Vec<usize>, k: usize, out: &mut Vec<usize>)
    requires
        forall|i: int| 0 <= i < v@.len() ==> v@[i] + k <= usize::MAX,
    ensures
        ids_of(final(out)@) == ids_of(old(out)@) + shifted(ids_of(v@), k as nat),
{
    let ghost o = out@;
    let mut j: usize = 0;
    while j < v.len()
        invariant
            0 <= j <= v@.len(),
            forall|i: int| 0 <= i < v@.len() ==> v@[i] + k <= usize::MAX,
            out@.len() == o.len() + j,
            forall|i: int| 0 <= i < o.len() ==> out@[i] == o[i],
            forall|i: int| 0 <= i < j ==> out@[o.len() + i] == v@[i] + k,
        decreases v@.len() - j,
    {
        out.push(v[j] + k);
        j += 1;
    }
    proof {
        let a = ids_of(out@);
        let b = ids_of(o) + shifted(ids_of(v@), k as nat);
        assert forall|q: nat| a.contains(q) implies b.contains(q) by {
            let i = choose|i: int| 0 <= i < out@.len() && out@[i] as nat == q;
            if i < o.len() {
                assert(o[i] as nat == q);
            } else {
                assert(v@[i - o.len()] as nat == (q - k) as nat);
            }
        }
        assert forall|q: nat| b.contains(q) implies a.contains(q) by {
            if ids_of(o).contains(q) {
                let i = choose|i: int| 0 <= i < o.len() && o[i] as nat == q;
                assert(out@[i] as nat == q);
            } else {
                let i = choose|i: int| 0 <= i < v@.len() && v@[i] as nat == (q - k) as nat;
                assert(out@[o.len() + i] as nat == q);
            }
        }
        assert(a =~= b);
    }
}

/// Appends `(p + k, c, q + k)` to `out` for each transition `(p, c, q)` of `d`.
fn push_shifted_edges(d: &Vec<(usize, char, usize)>, k: usize, out: &mut Vec<(usize, char, usize)>)
    requires
        forall|i: int| 0 <= i < d@.len() ==> d@[i].0 + k <= usize::MAX && d@[i].2 + k <= usize::MAX,
    ensures
        edge_set(final(out)@) == edge_set(old(out)@) + shifted_edges(edge_set(d@), k as nat),
{
    let ghost o = out@;
    let mut j: usize = 0;
    while j < d.len()
        invariant
            0 <= j <= d@.len(),
            forall|i: int|
                0 <= i < d@.len() ==> d@[i].0 + k <= usize::MAX && d@[i].2 + k <= usize::MAX,
            out@.len() == o.len() + j,
            forall|i: int| 0 <= i < o.len() ==> out@[i] == o[i],
            forall|i: int|
                0 <= i < j ==> edge_of(out@[o.len() + i]) == (
                    (d@[i].0 + k) as nat,
                    d@[i].1,
                    (d@[i].2 + k) as nat,
                ),
        decreases d@.len() - j,
    {
        let (p, c, q) = d[j];
        out.push((p + k, c, q + k));
        j += 1;
    }
    proof {
        let a = edge_set(out@);
        let b = edge_set(o) + shifted_edges(edge_set(d@), k as nat);
        assert forall|t: (nat, char, nat)| a.contains(t) implies b.contains(t) by {
            let i = choose|i: int| 0 <= i < out@.len() && edge_of(out@[i]) == t;
            if i < o.len() {
                assert(edge_of(o[i]) == t);
            } else {
                assert(edge_of(d@[i - o.len()]) == ((t.0 - k) as nat, t.1, (t.2 - k) as nat));
            }
        }
        assert forall|t: (nat, char, nat)| b.contains(t) implies a.contains(t) by {
            if edge_set(o).contains(t) {
                let i = choose|i: int| 0 <= i < o.len() && edge_of(o[i]) == t;
                assert(edge_of(out@[i]) == t);
            } else {
                let i = choose|i: int|
                    0 <= i < d@.len() && edge_of(d@[i]) == ((t.0 - k) as nat, t.1, (t.2 - k) as nat);
                assert(edge_of(out@[o.len() + i]) == t);
            }
        }
        assert(a =~= b);
    }
}

/// Appends `(p, c, t)` to `out` for each id `t` of `targets`.
fn push_fan(p: usize, c: char, targets: &Vec<usize>, out: &mut Vec<(usize, char, usize)>)
    ensures
        edge_set(final(out)@) == edge_set(old(out)@) + Set::new(
            |e: (nat, char, nat)| e.0 == p && e.1 == c && ids_of(targets@).contains(e.2),
        ),
{
    let ghost o = out@;
    let mut j: usize = 0;
    while j < targets.len()
        invariant
            0 <= j <= targets@.len(),
            out@.len() == o.len() + j,
            forall|i: int| 0 <= i < o.len() ==> out@[i] == o[i],
            forall|i: int| 0 <= i < j ==> out@[o.len() + i] == (p, c, targets@[i]),
        decreases targets@.len() - j,
    {
        out.push((p, c, targets[j]));
        j += 1;
    }
    proof {
        let a = edge_set(out@);
        let f = Set::new(
            |e: (nat, char, nat)| e.0 == p && e.1 == c && ids_of(targets@).contains(e.2),
        );
        let b = edge_set(o) + f;
        assert forall|t: (nat, char, nat)| a.contains(t) implies b.contains(t) by {
            let i = choose|i: int| 0 <= i < out@.len() && edge_of(out@[i]) == t;
            if i < o.len() {
                assert(edge_of(o[i]) == t);
            } else {
                assert(targets@[i - o.len()] as nat == t.2);
            }
        }
        assert forall|t: (nat, char, nat)| b.contains(t) implies a.contains(t) by {
            if edge_set(o).contains(t) {
                let i = choose|i: int| 0 <= i < o.len() && edge_of(o[i]) == t;
                assert(edge_of(out@[i]) == t);
            } else {
                let i = choose|i: int| 0 <= i < targets@.len() && targets@[i] as nat == t.2;
                assert(edge_of(out@[o.len() + i]) == t);
            }
        }
        assert(a =~= b);
    }
}

/// Appends `(p, c, t)` to `out` for each transition `(p, c, q)` of `d` whose
/// destination `q` is in `acc`, and each id `t` of `targets`.
fn push_fallthrough(
    d: &Vec<(usize, char, usize)>,
    acc: &Vec<usize>,
    targets: &Vec<usize>,
    out: &mut Vec<(usize, char, usize)>,
)
    ensures
        edge_set(final(out)@) == edge_set(old(out)@) + fallthrough(
            edge_set(d@),
            ids_of(acc@),
            ids_of(targets@),
        ),
{
    let ghost o = out@;
    let ghost ac = ids_of(acc@);
    let ghost tg = ids_of(targets@);
    let mut j: usize = 0;
    while j < d.len()
        invariant
            0 <= j <= d@.len(),
            ac == ids_of(acc@),
            tg == ids_of(targets@),
            edge_set(out@) == edge_set(o) + fallthrough(edge_set(d@.take(j as int)), ac, tg),
        decreases d@.len() - j,
    {
        let (p, c, q) = d[j];
        let ghost before = edge_set(out@);
        let hit = contains_id(acc, q);
        if hit {
            push_fan(p, c, targets, out);
        }
        proof {
            let s0 = d@.take(j as int);
            let s1 = d@.take(j + 1);
            let e0 = edge_set(s0);
            let e1 = edge_set(s1);
            assert forall|t: (nat, char, nat)| #[trigger] e1.contains(t) implies e0.contains(t) || t
                == edge_of(d@[j as int]) by {
                let i = choose|i: int| 0 <= i < s1.len() && edge_of(s1[i]) == t;
                if i < j {
                    assert(edge_of(s0[i]) == t);
                }
            }
            assert forall|t: (nat, char, nat)| #[trigger] e0.contains(t) implies e1.contains(t) by {
                let i = choose|i: int| 0 <= i < s0.len() && edge_of(s0[i]) == t;
                assert(edge_of(s1[i]) == t);
            }
            assert(e1.contains(edge_of(d@[j as int]))) by {
                assert(edge_of(s1[j as int]) == edge_of(d@[j as int]));
            }
            let f0 = fallthrough(e0, ac, tg);
            let f1 = fallthrough(e1, ac, tg);
            assert forall|t: (nat, char, nat)| f1.contains(t) implies edge_set(out@).contains(
                t,
            ) by {
                let r = choose|r: nat| #[trigger] e1.contains((t.0, t.1, r)) && ac.contains(r);
                if e0.contains((t.0, t.1, r)) {
                    assert(f0.contains(t));
                } else {
                    assert(hit);
                }
            }
            assert forall|t: (nat, char, nat)| edge_set(out@).contains(t) implies edge_set(
                o,
            ).contains(t) || f1.contains(t) by {
                if !before.contains(t) {
                    assert(e1.contains((p as nat, c, q as nat)));
                }
            }
            assert(edge_set(out@) =~= edge_set(o) + f1);
        }
        j += 1;
    }
    assert(d@.take(d@.len() as int) =~= d@);
}

/// The ids marked `true` in `v`.
pub open spec fn marked(v: Seq<bool>) -> Set<nat> {
    Set::new(|q: nat| q < v.len() && v[q as int])
}

impl NFA {
    /// The states reached from the states of `from` by one transition on `c`.
    pub open spec fn step(&self, from: Set<nat>, c: char) -> Set<nat> {
        Set::new(
            |q: nat| exists|p: nat| from.contains(p) && #[trigger] self.edges().contains((p, c, q)),
        )
    }

    /// The states reached from the states of `from` by reading `s`.
    pub open spec fn reach_from(&self, from: Set<nat>, s: Seq<char>) -> Set<nat>
        decreases s.len(),
    {
        if s.len() == 0 {
            from
        } else {
            self.step(self.reach_from(from, s.drop_last()), s.last())
        }
    }

    /// The states reached from the starting states by reading `s`.
    pub open spec fn reach(&self, s: Seq<char>) -> Set<nat> {
        self.reach_from(self.start(), s)
    }

    /// Whether the automaton accepts `s`: reading it from the starting states
    /// can end in an accepting state.
    pub open spec fn accepts(&self, s: Seq<char>) -> bool {
        exists|q: nat| #[trigger] self.reach(s).contains(q) && self.accept().contains(q)
    }

    /// A mark for each state, `true` on the starting ones.
    fn start_marks(&self) -> (m: Vec<bool>)
        requires
            self.wf(),
        ensures
            m@.len() == self.count(),
            marked(m@) == self.start(),
    {
        proof {
            self.lemma_ids_below();
        }
        let mut m: Vec<bool> = Vec::new();
        while m.len() < self.states
            invariant
                m@.len() <= self.states,
                forall|q: int| 0 <= q < m@.len() ==> !m@[q],
            decreases self.states - m@.len(),
        {
            m.push(false);
        }
        let mut j: usize = 0;
        while j < self.starting.len()
            invariant
                0 <= j <= self.starting@.len(),
                m@.len() == self.states,
                forall|i: int| 0 <= i < self.starting@.len() ==> self.starting@[i] < self.states,
                forall|q: nat|
                    q < self.states ==> (m@[q as int] <==> exists|i: int|
                        0 <= i < j && self.starting@[i] as nat == q),
            decreases self.starting@.len() - j,
        {
            let s = self.starting[j];
            m.set(s, true);
            proof {
                assert forall|q: nat| q < self.states implies (m@[q as int] <==> exists|i: int|
                    0 <= i < j + 1 && self.starting@[i] as nat == q) by {
                    if q == s as nat {
                        assert(self.starting@[j as int] as nat == q);
                    }
                }
            }
            j += 1;
        }
        assert(marked(m@) =~= self.start());
        m
    }

    /// The marks of the states reached by one transition on `c` from the
    /// states marked in `active`.
    fn step_marks(&self, active: &Vec<bool>, c: char) -> (m: Vec<bool>)
        requires
            self.wf(),
            active@.len() == self.count(),
        ensures
            m@.len() == self.count(),
            marked(m@) == self.step(marked(active@), c),
    {
        proof {
            self.lemma_ids_below();
        }
        let mut m: Vec<bool> = Vec::new();
        while m.len() < self.states
            invariant
                m@.len() <= self.states,
                forall|q: int| 0 <= q < m@.len() ==> !m@[q],
            decreases self.states - m@.len(),
        {
            m.push(false);
        }
        let mut j: usize = 0;
        while j < self.delta.len()
            invariant
                0 <= j <= self.delta@.len(),
                m@.len() == self.states,
                active@.len() == self.states,
                forall|i: int|
                    0 <= i < self.delta@.len() ==> self.delta@[i].0 < self.states
                        && self.delta@[i].2 < self.states,
                forall|q: nat|
                    q < self.states ==> (m@[q as int] <==> exists|i: int|
                        0 <= i < j && self.delta@[i].1 == c && active@[self.delta@[i].0 as int]
                            && self.delta@[i].2 as nat == q),
            decreases self.delta@.len() - j,
        {
            let (p, d, q) = self.delta[j];
            if d == c && active[p] {
                m.set(q, true);
            }
            proof {
                assert forall|r: nat| r < self.states implies (m@[r as int] <==> exists|i: int|
                    0 <= i < j + 1 && self.delta@[i].1 == c && active@[self.delta@[i].0 as int]
                        && self.delta@[i].2 as nat == r) by {
                    if d == c && active@[p as int] && r == q as nat {
                        assert(self.delta@[j as int].2 as nat == r);
                    }
                }
            }
            j += 1;
        }
        proof {
            let st = self.step(marked(active@), c);
            assert forall|q: nat| marked(m@).contains(q) implies st.contains(q) by {
                let i = choose|i: int|
                    0 <= i < self.delta@.len() && self.delta@[i].1 == c && active@[self.delta@[
                        i
                    ].0 as int] && self.delta@[i].2 as nat == q;
                let p = self.delta@[i].0 as nat;
                assert(edge_of(self.delta@[i]) == (p, c, q));
                assert(self.edges().contains((p, c, q)));
                assert(marked(active@).contains(p));
            }
            assert forall|q: nat| st.contains(q) implies marked(m@).contains(q) by {
                let p = choose|p: nat|
                    marked(active@).contains(p) && #[trigger] self.edges().contains((p, c, q));
                let i = choose|i: int|
                    0 <= i < self.delta@.len() && edge_of(self.delta@[i]) == (p, c, q);
                assert(self.delta@[i].2 as nat == q);
            }
            assert(marked(m@) =~= st);
        }
        m
    }

    /// Whether some accepting state is marked in `active`.
    fn any_accepting(&self, active: &Vec<bool>) -> (r: bool)
        requires
            self.wf(),
            active@.len() == self.count(),
        ensures
            r == exists|q: nat| marked(active@).contains(q) && self.accept().contains(q),
    {
        proof {
            self.lemma_ids_below();
        }
        let mut j: usize = 0;
        while j < self.finished.len()
            invariant
                0 <= j <= self.finished@.len(),
                active@.len() == self.states,
                forall|i: int| 0 <= i < self.finished@.len() ==> self.finished@[i] < self.states,
                forall|i: int| 0 <= i < j ==> !active@[#[trigger] self.finished@[i] as int],
            decreases self.finished@.len() - j,
        {
            if active[self.finished[j]] {
                assert(self.accept().contains(self.finished@[j as int] as nat));
                assert(marked(active@).contains(self.finished@[j as int] as nat));
                return true;
            }
            j += 1;
        }
        proof {
            assert forall|q: nat| marked(active@).contains(q) implies !self.accept().contains(q) by {
                if self.accept().contains(q) {
                    let i = choose|i: int|
                        0 <= i < self.finished@.len() && self.finished@[i] as nat == q;
                    assert(!active@[self.finished@[i] as int]);
                }
            }
        }
        false
    }

    /// Decides whether the automaton accepts `input`, by advancing the set of
    /// active states one symbol at a time.
    pub fn matches(&self, input: &Vec<char>) -> (r: bool)
        requires
            self.wf(),
        ensures
            r == self.accepts(input@),
    {
        let mut active = self.start_marks();
        let mut i: usize = 0;
        while i < input.len()
            invariant
                self.wf(),
                0 <= i <= input@.len(),
                active@.len() == self.count(),
                marked(active@) == self.reach(input@.take(i as int)),
            decreases input@.len() - i,
        {
            active = self.step_marks(&active, input[i]);
            proof {
                let s = input@.take(i + 1);
                assert(s.drop_last() =~= input@.take(i as int));
            }
            i += 1;
        }
        assert(input@.take(input@.len() as int) =~= input@);
        let r = self.any_accepting(&active);
        r
    }

    /// The number of states; the ids are `0..state_count()`.
    pub fn state_count(&self) -> (r: usize)
        ensures
            r == self.count(),
    {
        self.states
    }

    /// The starting states.
    pub fn starting_states(&self) -> (r: Vec<usize>)
        ensures
            ids_of(r@) == self.start(),
    {
        let mut r: Vec<usize> = Vec::new();
        proof {
            assert(ids_of(r@) =~= Set::empty());
            lemma_shift_zero(self.start(), self.edges());
        }
        push_shifted(&self.starting, 0, &mut r);
        r
    }

    /// The accepting states.
    pub fn accepting_states(&self) -> (r: Vec<usize>)
        ensures
            ids_of(r@) == self.accept(),
    {
        let mut r: Vec<usize> = Vec::new();
        proof {
            assert(ids_of(r@) =~= Set::empty());
            lemma_shift_zero(self.accept(), self.edges());
        }
        push_shifted(&self.finished, 0, &mut r);
        r
    }

    /// The transitions, as triples `(from, symbol, to)`.
    pub fn transitions(&self) -> (r: Vec<(usize, char, usize)>)
        ensures
            edge_set(r@) == self.edges(),
    {
        let mut r: Vec<(usize, char, usize)> = Vec::new();
        proof {
            assert(edge_set(r@) =~= Set::empty());
            lemma_shift_zero(self.accept(), self.edges());
        }
        push_shifted_edges(&self.delta, 0, &mut r);
        r
    }

    /// Draws every symbol left in `stream`, once and in order, and decides
    /// whether the automaton accepts them (see `matches`).
    pub fn is_match(&self, stream: &mut CharStream) -> (r: bool)
        requires
            self.wf(),
    {
        let input = drain(stream);
        self.matches(&input)
    }
}

proof fn lemma_shift_zero(s: Set<nat>, e: Set<(nat, char, nat)>)
    ensures
        shifted(s, 0) == s,
        shifted_edges(e, 0) == e,
{
    assert(shifted(s, 0) =~= s);
    assert(shifted_edges(e, 0) =~= e);
}

/// Whether some id is in both `a` and `b`.
fn intersects(a: &Vec<usize>, b: &Vec<usize>) -> (r: bool)
    ensures
        r == exists|q: nat| ids_of(a@).contains(q) && ids_of(b@).contains(q),
{
    let mut j: usize = 0;
    while j < a.len()
        invariant
            0 <= j <= a@.len(),
            forall|i: int| 0 <= i < j ==> !ids_of(b@).contains(#[trigger] a@[i] as nat),
        decreases a@.len() - j,
    {
        if contains_id(b, a[j]) {
            assert(ids_of(a@).contains(a@[j as int] as nat));
            return true;
        }
        j += 1;
    }
    proof {
        assert forall|q: nat| ids_of(a@).contains(q) implies !ids_of(b@).contains(q) by {
            let i = choose|i: int| 0 <= i < a@.len() && a@[i] as nat == q;
            assert(!ids_of(b@).contains(a@[i] as nat));
        }
    }
    false
}

impl NFA {
    proof fn lemma_ids_below(&self)
        requires
            self.wf(),
        ensures
            forall|i: int| 0 <= i < self.starting@.len() ==> self.starting@[i] < self.states,
            forall|i: int| 0 <= i < self.finished@.len() ==> self.finished@[i] < self.states,
            forall|i: int|
                0 <= i < self.delta@.len() ==> self.delta@[i].0 < self.states && self.delta@[i].2
                    < self.states,
    {
        assert forall|i: int| 0 <= i < self.starting@.len() implies self.starting@[i]
            < self.states by {
            assert(self.start().contains(self.starting@[i] as nat));
        }
        assert forall|i: int| 0 <= i < self.finished@.len() implies self.finished@[i]
            < self.states by {
            assert(self.accept().contains(self.finished@[i] as nat));
        }
        assert forall|i: int| 0 <= i < self.delta@.len() implies self.delta@[i].0 < self.states
            && self.delta@[i].2 < self.states by {
            let t = self.delta@[i];
            assert(self.edges().contains(edge_of(t)));
        }
    }
}

/// The automaton of the empty word: one state, starting and accepting, and no
/// transitions.
pub fn empty() -> (r: NFA)
    ensures
        r.wf(),
        r.count() == 1,
        r.start() == set![0nat],
        r.accept() == set![0nat],
        r.edges() == Set::<(nat, char, nat)>::empty(),
        accepts_only_empty(r),
{
    let r = NFA { states: 1, starting: vec![0usize], delta: Vec::new(), finished: vec![0usize] };
    proof {
        assert(r.start() =~= set![0nat]) by {
            assert(r.starting@[0] as nat == 0nat);
        }
        assert(r.accept() =~= set![0nat]) by {
            assert(r.finished@[0] as nat == 0nat);
        }
        assert(r.edges() =~= Set::<(nat, char, nat)>::empty());
        assert(r.start().contains(0nat));
        lemma_empty_language(r);
    }
    r
}

/// The automaton of the one-symbol word `ch`: state 0 starts, state 1
/// accepts, and one transition reads `ch` from 0 to 1.
pub fn unit(ch: char) -> (r: NFA)
    ensures
        r.wf(),
        r.count() == 2,
        r.start() == set![0nat],
        r.accept() == set![1nat],
        r.edges() == set![(0nat, ch, 1nat)],
        accepts_only_symbol(r, ch),
{
    let r = NFA {
        states: 2,
        starting: vec![0usize],
        delta: vec![(0usize, ch, 1usize)],
        finished: vec![1usize],
    };
    proof {
        assert(r.start() =~= set![0nat]) by {
            assert(r.starting@[0] as nat == 0nat);
        }
        assert(r.accept() =~= set![1nat]) by {
            assert(r.finished@[0] as nat == 1nat);
        }
        assert(r.edges() =~= set![(0nat, ch, 1nat)]) by {
            assert(edge_of(r.delta@[0]) == (0nat, ch, 1nat));
        }
        assert(r.start().contains(0nat));
        lemma_unit_language(r, ch);
    }
    r
}

/// The union of two automata: `second` is renumbered past `first`, and the
/// starting states, accepting states and transitions of both are kept.
pub fn plus(first: &NFA, second: &NFA) -> (r: NFA)
    requires
        first.wf(),
        second.wf(),
        first.count() + second.count() <= usize::MAX,
    ensures
        r.wf(),
        r.count() == first.count() + second.count(),
        r.start() == first.start() + shifted(second.start(), first.count()),
        r.accept() == first.accept() + shifted(second.accept(), first.count()),
        r.edges() == first.edges() + shifted_edges(second.edges(), first.count()),
        is_union_of(*first, *second, r),
{
    proof {
        first.lemma_ids_below();
        second.lemma_ids_below();
        lemma_shift_zero(first.start(), first.edges());
        lemma_shift_zero(first.accept(), first.edges());
    }
    let k = first.states;
    let mut starting: Vec<usize> = Vec::new();
    push_shifted(&first.starting, 0, &mut starting);
    push_shifted(&second.starting, k, &mut starting);
    let mut finished: Vec<usize> = Vec::new();
    push_shifted(&first.finished, 0, &mut finished);
    push_shifted(&second.finished, k, &mut finished);
    let mut delta: Vec<(usize, char, usize)> = Vec::new();
    push_shifted_edges(&first.delta, 0, &mut delta);
    push_shifted_edges(&second.delta, k, &mut delta);
    let r = NFA { states: first.states + second.states, starting, delta, finished };
    proof {
        assert(ids_of(Seq::<usize>::empty()) =~= Set::empty());
        assert(edge_set(Seq::<(usize, char, usize)>::empty()) =~= Set::empty());
        assert(r.start() =~= first.start() + shifted(second.start(), first.count()));
        assert(r.accept() =~= first.accept() + shifted(second.accept(), first.count()));
        assert(r.edges() =~= first.edges() + shifted_edges(second.edges(), first.count()));
        let q0 = choose|q: nat| first.start().contains(q);
        assert(r.start().contains(q0));
        lemma_union_language(*first, *second, r);
    }
    r
}

/// The concatenation of two automata: `second` is renumbered past `first`;
/// every transition of `first` into one of its accepting states also leads to
/// every starting state of `second`; the run starts in `second` too when
/// `first` accepts the empty word; only the states of `second` accept.
pub fn times(first: &NFA, second: &NFA) -> (r: NFA)
    requires
        first.wf(),
        second.wf(),
        first.count() + second.count() <= usize::MAX,
    ensures
        r.wf(),
        r.count() == first.count() + second.count(),
        r.start() == first.start() + if exists|q: nat|
            first.start().contains(q) && first.accept().contains(q) {
            shifted(second.start(), first.count())
        } else {
            Set::empty()
        },
        r.accept() == shifted(second.accept(), first.count()),
        r.edges() == first.edges() + fallthrough(
            first.edges(),
            first.accept(),
            shifted(second.start(), first.count()),
        ) + shifted_edges(second.edges(), first.count()),
        is_concat_of(*first, *second, r),
{
    proof {
        first.lemma_ids_below();
        second.lemma_ids_below();
        lemma_shift_zero(first.start(), first.edges());
        assert(ids_of(Seq::<usize>::empty()) =~= Set::empty());
        assert(edge_set(Seq::<(usize, char, usize)>::empty()) =~= Set::empty());
    }
    let k = first.states;
    let mut starting: Vec<usize> = Vec::new();
    push_shifted(&first.starting, 0, &mut starting);
    if intersects(&first.starting, &first.finished) {
        push_shifted(&second.starting, k, &mut starting);
    }
    let mut second_starting: Vec<usize> = Vec::new();
    push_shifted(&second.starting, k, &mut second_starting);
    let mut finished: Vec<usize> = Vec::new();
    push_shifted(&second.finished, k, &mut finished);
    let mut delta: Vec<(usize, char, usize)> = Vec::new();
    push_shifted_edges(&first.delta, 0, &mut delta);
    push_fallthrough(&first.delta, &first.finished, &second_starting, &mut delta);
    push_shifted_edges(&second.delta, k, &mut delta);
    let r = NFA { states: first.states + second.states, starting, delta, finished };
    proof {
        let ft = fallthrough(first.edges(), first.accept(), shifted(second.start(), first.count()));
        assert(r.start() =~= first.start() + if exists|q: nat|
            first.start().contains(q) && first.accept().contains(q) {
            shifted(second.start(), first.count())
        } else {
            Set::empty()
        });
        assert(r.accept() =~= shifted(second.accept(), first.count()));
        assert(r.edges() =~= first.edges() + ft + shifted_edges(second.edges(), first.count()));
        assert forall|p: nat, c: char, q: nat| #[trigger]
            r.edges().contains((p, c, q)) implies p < r.count() && q < r.count() by {
            if ft.contains((p, c, q)) {
                let m = choose|m: nat| #[trigger]
                    first.edges().contains((p, c, m)) && first.accept().contains(m);
            }
        }
        let q0 = choose|q: nat| first.start().contains(q);
        assert(r.start().contains(q0));
        lemma_concat_language(*first, *second, r);
    }
    r
}

/// The Kleene closure of an automaton: the same states; every transition into
/// an accepting state also leads back to every starting state; the starting
/// states accept too. Every concatenation of words of `nfa` is accepted; where
/// a nonempty word leads `nfa` back to a starting state that does not accept,
/// the result accepts that word as well, so the language is exact only
/// without such a word.
pub fn star(nfa: &NFA) -> (r: NFA)
    requires
        nfa.wf(),
    ensures
        r.wf(),
        r.count() == nfa.count(),
        r.start() == nfa.start(),
        r.accept() == nfa.accept() + nfa.start(),
        r.edges() == nfa.edges() + fallthrough(nfa.edges(), nfa.accept(), nfa.start()),
        forall|s: Seq<char>| #[trigger] in_star(*nfa, s) ==> r.accepts(s),
        no_restart(*nfa) ==> forall|s: Seq<char>| #[trigger] r.accepts(s) == in_star(*nfa, s),
{
    proof {
        nfa.lemma_ids_below();
        lemma_shift_zero(nfa.start(), nfa.edges());
        lemma_shift_zero(nfa.accept(), nfa.edges());
        assert(ids_of(Seq::<usize>::empty()) =~= Set::empty());
        assert(edge_set(Seq::<(usize, char, usize)>::empty()) =~= Set::empty());
    }
    let mut starting: Vec<usize> = Vec::new();
    push_shifted(&nfa.starting, 0, &mut starting);
    let mut finished: Vec<usize> = Vec::new();
    push_shifted(&nfa.finished, 0, &mut finished);
    push_shifted(&nfa.starting, 0, &mut finished);
    let mut delta: Vec<(usize, char, usize)> = Vec::new();
    push_shifted_edges(&nfa.delta, 0, &mut delta);
    push_fallthrough(&nfa.delta, &nfa.finished, &nfa.starting, &mut delta);
    let r = NFA { states: nfa.states, starting, delta, finished };
    proof {
        let ft = fallthrough(nfa.edges(), nfa.accept(), nfa.start());
        assert(r.start() =~= nfa.start());
        assert(r.accept() =~= nfa.accept() + nfa.start());
        assert(r.edges() =~= nfa.edges() + ft);
        assert forall|p: nat, c: char, q: nat| #[trigger]
            r.edges().contains((p, c, q)) implies p < r.count() && q < r.count() by {
            if ft.contains((p, c, q)) {
                let m = choose|m: nat| #[trigger]
                    nfa.edges().contains((p, c, m)) && nfa.accept().contains(m);
            }
        }
        let q0 = choose|q: nat| nfa.start().contains(q);
        assert(r.start().contains(q0));
        lemma_star_language(*nfa, r);
    }
    r
}

} // verus!
