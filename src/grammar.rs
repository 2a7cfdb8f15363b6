//! Expanding a grammar into one music string with no non-terminals left.
use crate::cfg::{
    primitive_wf, string_wf, Grammar, MusicPrimitive, MusicString, MusicTransform, NonTerminal,
    Production, Symbol, Terminal,
};
use crate::scan::grammar_wf;
use vstd::prelude::*;

verus! {

/// How deep productions may be substituted into each other before expansion gives up.
pub const MAX_EXPANSION_DEPTH: usize = 1024;

#[derive(Debug)]
pub enum GrammarError {
    /// No production has this non-terminal on its left.
    UndefinedNonTerminal(String),
    /// Substitution went deeper than `MAX_EXPANSION_DEPTH`: the grammar recurses.
    ExpansionDepthExceeded,
}

/// No non-terminal occurs anywhere in the string.
pub open spec fn string_closed(ms: MusicString) -> bool
    decreases ms,
{
    forall|i: int| 0 <= i < ms.0@.len() ==> primitive_closed(#[trigger] ms.0@[i])
}

pub open spec fn primitive_closed(p: MusicPrimitive) -> bool
    decreases p,
{
    match p {
        MusicPrimitive::Simple(Symbol::NT(_)) => false,
        MusicPrimitive::Simple(Symbol::T(_)) => true,
        MusicPrimitive::Split { branches } => forall|j: int|
            0 <= j < branches@.len() ==> string_closed(#[trigger] branches@[j]),
        MusicPrimitive::Transform { transform: _, content } => string_closed(content),
    }
}

pub open spec fn name_of(nt: NonTerminal) -> Seq<char> {
    match nt {
        NonTerminal::Custom(s) => s@,
    }
}

/// A music primitive as a mathematical value: names as character sequences and lists as
/// sequences.
pub enum PrimView {
    NT(Seq<char>),
    T(Terminal),
    Split(Seq<Seq<PrimView>>),
    Transform(MusicTransform, Seq<PrimView>),
}

pub open spec fn view_prims(ps: Seq<MusicPrimitive>) -> Seq<PrimView>
    decreases ps,
{
    if ps.len() == 0 {
        Seq::empty()
    } else {
        view_prims(ps.drop_last()).push(view_prim(ps.last()))
    }
}

pub open spec fn view_prim(p: MusicPrimitive) -> PrimView
    decreases p,
{
    match p {
        MusicPrimitive::Simple(Symbol::NT(NonTerminal::Custom(s))) => PrimView::NT(s@),
        MusicPrimitive::Simple(Symbol::T(t)) => PrimView::T(t),
        MusicPrimitive::Split { branches } => PrimView::Split(view_branches(branches@)),
        MusicPrimitive::Transform { transform, content } => PrimView::Transform(
            transform,
            view_prims(content.0@),
        ),
    }
}

pub open spec fn view_branches(bs: Seq<MusicString>) -> Seq<Seq<PrimView>>
    decreases bs,
{
    if bs.len() == 0 {
        Seq::empty()
    } else {
        view_branches(bs.drop_last()).push(view_prims(bs.last().0@))
    }
}

/// The productions of a grammar: each name with its body.
pub open spec fn productions_view(g: Grammar) -> Seq<(Seq<char>, Seq<PrimView>)> {
    g.productions@.map_values(|p: Production| (name_of(p.0), view_prims(p.1.0@)))
}

/// The index of the last production for `name`.
pub open spec fn find_last(ps: Seq<(Seq<char>, Seq<PrimView>)>, name: Seq<char>) -> Option<int>
    decreases ps.len(),
{
    if ps.len() == 0 {
        None
    } else if ps.last().0 == name {
        Some(ps.len() - 1)
    } else {
        find_last(ps.drop_last(), name)
    }
}

/// What expanding a piece of music gives: the music, or the first failure.
pub enum Expanded {
    Done(Seq<PrimView>),
    Undefined(Seq<char>),
    TooDeep,
}

/// `ps` with every non-terminal replaced, from left to right, by the expansion of the body
/// of its last production, `depth` substitutions deep.
pub open spec fn expand_seq(ps: Seq<PrimView>, g: Seq<(Seq<char>, Seq<PrimView>)>, depth: int) -> Expanded
    decreases MAX_EXPANSION_DEPTH - depth, ps,
{
    if depth > MAX_EXPANSION_DEPTH {
        Expanded::TooDeep
    } else if ps.len() == 0 {
        Expanded::Done(Seq::empty())
    } else {
        match expand_one(ps[0], g, depth) {
            Expanded::Done(first) => match expand_seq(ps.drop_first(), g, depth) {
                Expanded::Done(rest) => Expanded::Done(first + rest),
                e => e,
            },
            e => e,
        }
    }
}

pub open spec fn expand_one(p: PrimView, g: Seq<(Seq<char>, Seq<PrimView>)>, depth: int) -> Expanded
    decreases MAX_EXPANSION_DEPTH - depth, p,
{
    if depth > MAX_EXPANSION_DEPTH {
        Expanded::TooDeep
    } else {
        match p {
            PrimView::NT(name) => match find_last(g, name) {
                None => Expanded::Undefined(name),
                Some(k) => if depth >= MAX_EXPANSION_DEPTH {
                    Expanded::TooDeep
                } else {
                    expand_seq(g[k].1, g, depth + 1)
                },
            },
            PrimView::T(t) => Expanded::Done(seq![PrimView::T(t)]),
            PrimView::Split(bs) => match expand_all(bs, g, depth) {
                Ok(xs) => Expanded::Done(seq![PrimView::Split(xs)]),
                Err(e) => e,
            },
            PrimView::Transform(t, c) => match expand_seq(c, g, depth) {
                Expanded::Done(x) => Expanded::Done(seq![PrimView::Transform(t, x)]),
                e => e,
            },
        }
    }
}

pub open spec fn expand_all(
    bs: Seq<Seq<PrimView>>,
    g: Seq<(Seq<char>, Seq<PrimView>)>,
    depth: int,
) -> Result<Seq<Seq<PrimView>>, Expanded>
    decreases MAX_EXPANSION_DEPTH - depth, bs,
{
    if depth > MAX_EXPANSION_DEPTH {
        Err(Expanded::TooDeep)
    } else if bs.len() == 0 {
        Ok(Seq::empty())
    } else {
        match expand_seq(bs[0], g, depth) {
            Expanded::Done(x) => match expand_all(bs.drop_first(), g, depth) {
                Ok(xs) => Ok(seq![x] + xs),
                Err(e) => Err(e),
            },
            e => Err(e),
        }
    }
}

proof fn lemma_view_prims(ps: Seq<MusicPrimitive>)
    ensures
        view_prims(ps).len() == ps.len(),
        forall|j: int| 0 <= j < ps.len() ==> #[trigger] view_prims(ps)[j] == view_prim(ps[j]),
    decreases ps.len(),
{
    if ps.len() > 0 {
        lemma_view_prims(ps.drop_last());
        assert forall|j: int| 0 <= j < ps.len() implies #[trigger] view_prims(ps)[j] == view_prim(
            ps[j],
        ) by {
            if j < ps.len() - 1 {
                assert(ps.drop_last()[j] == ps[j]);
            }
        }
    }
}

proof fn lemma_view_prims_append(a: Seq<MusicPrimitive>, b: Seq<MusicPrimitive>)
    ensures
        view_prims(a + b) == view_prims(a) + view_prims(b),
{
    lemma_view_prims(a);
    lemma_view_prims(b);
    lemma_view_prims(a + b);
    assert forall|j: int| 0 <= j < a.len() + b.len() implies #[trigger] view_prims(a + b)[j] == (
    view_prims(a) + view_prims(b))[j] by {
        if j < a.len() {
            assert((a + b)[j] == a[j]);
        } else {
            assert((a + b)[j] == b[j - a.len()]);
        }
    }
    assert(view_prims(a + b) =~= view_prims(a) + view_prims(b));
}

proof fn lemma_view_branches(bs: Seq<MusicString>)
    ensures
        view_branches(bs).len() == bs.len(),
        forall|j: int| 0 <= j < bs.len() ==> #[trigger] view_branches(bs)[j] == view_prims(bs[j].0@),
    decreases bs.len(),
{
    if bs.len() > 0 {
        lemma_view_branches(bs.drop_last());
        assert forall|j: int| 0 <= j < bs.len() implies #[trigger] view_branches(bs)[j]
            == view_prims(bs[j].0@) by {
            if j < bs.len() - 1 {
                assert(bs.drop_last()[j] == bs[j]);
            }
        }
    }
}

proof fn lemma_view_single(x: MusicPrimitive)
    ensures
        view_prims(seq![x]) == seq![view_prim(x)],
{
    assert(seq![x].drop_last() =~= Seq::<MusicPrimitive>::empty());
    assert(view_prims(Seq::<MusicPrimitive>::empty()) == Seq::<PrimView>::empty());
    assert(Seq::<PrimView>::empty().push(view_prim(x)) =~= seq![view_prim(x)]);
}

/// `r` is the executable form of the expansion `e`.
pub open spec fn expansion_matches(r: Result<Vec<MusicPrimitive>, GrammarError>, e: Expanded) -> bool {
    match r {
        Ok(v) => e == Expanded::Done(view_prims(v@)),
        Err(GrammarError::UndefinedNonTerminal(name)) => e == Expanded::Undefined(name@),
        Err(GrammarError::ExpansionDepthExceeded) => e == Expanded::TooDeep,
    }
}

pub open spec fn glue_expanded(a: Seq<PrimView>, e: Expanded) -> Expanded {
    match e {
        Expanded::Done(rest) => Expanded::Done(a + rest),
        _ => e,
    }
}

/// The last production for `name`, or `None` when there is none.
pub fn lookup(g: &Grammar, name: &String) -> (r: Option<usize>)
    ensures
        r is Some ==> r.unwrap() < g.productions@.len() && find_last(productions_view(*g), name@)
            == Some(r.unwrap() as int),
        r is None ==> find_last(productions_view(*g), name@) is None,
{
    let ghost pv = productions_view(*g);
    let mut k = g.productions.len();
    assert(pv.subrange(0, k as int) =~= pv);
    while k > 0
        invariant
            k <= g.productions@.len(),
            pv == productions_view(*g),
            pv.len() == g.productions@.len(),
            find_last(pv, name@) == find_last(pv.subrange(0, k as int), name@),
        decreases k,
    {
        let NonTerminal::Custom(n) = &g.productions[k - 1].0;
        assert(pv[k - 1].0 == n@);
        assert(pv.subrange(0, k as int).drop_last() =~= pv.subrange(0, k - 1));
        if n.eq(name) {
            return Some(k - 1);
        }
        k -= 1;
    }
    None
}

/// Expands `ms`, substituting each non-terminal by its production, `depth` substitutions
/// deep; the result is a list of primitives to splice in place of `ms`.
fn expand_string(ms: &MusicString, g: &Grammar, depth: usize) -> (r: Result<
    Vec<MusicPrimitive>,
    GrammarError,
>)
    requires
        string_wf(*ms),
        grammar_wf(*g),
        depth <= MAX_EXPANSION_DEPTH,
    ensures
        expansion_matches(r, expand_seq(view_prims(ms.0@), productions_view(*g), depth as int)),
        r is Ok ==> forall|i: int|
            0 <= i < r->Ok_0@.len() ==> primitive_closed(#[trigger] r->Ok_0@[i]) && primitive_wf(
                r->Ok_0@[i],
            ),
    decreases MAX_EXPANSION_DEPTH - depth, ms,
{
    let ghost pv = productions_view(*g);
    let ghost whole = view_prims(ms.0@);
    proof {
        lemma_view_prims(ms.0@);
        assert(whole.subrange(0, whole.len() as int) =~= whole);
        match expand_seq(whole, pv, depth as int) {
            Expanded::Done(x) => {
                assert(view_prims(Seq::<MusicPrimitive>::empty()) + x =~= x);
            },
            _ => {},
        }
    }
    let mut out: Vec<MusicPrimitive> = Vec::new();
    let mut i: usize = 0;
    while i < ms.0.len()
        invariant
            string_wf(*ms),
            grammar_wf(*g),
            depth <= MAX_EXPANSION_DEPTH,
            i <= ms.0@.len(),
            pv == productions_view(*g),
            whole == view_prims(ms.0@),
            whole.len() == ms.0@.len(),
            forall|j: int| 0 <= j < ms.0@.len() ==> #[trigger] whole[j] == view_prim(ms.0@[j]),
            expand_seq(whole, pv, depth as int) == glue_expanded(
                view_prims(out@),
                expand_seq(whole.subrange(i as int, whole.len() as int), pv, depth as int),
            ),
            forall|j: int|
                0 <= j < out@.len() ==> primitive_closed(#[trigger] out@[j]) && primitive_wf(out@[j]),
        decreases ms.0@.len() - i,
    {
        let ghost here = whole.subrange(i as int, whole.len() as int);
        let ghost next = whole.subrange(i + 1, whole.len() as int);
        let ghost before = out@;
        proof {
            assert(here[0] == view_prim(ms.0@[i as int]));
            assert(here.drop_first() =~= next);
        }
        assert(primitive_wf(ms.0@[i as int]));
        // the expansion of this primitive, to be spliced in
        let mut piece: Vec<MusicPrimitive> = Vec::new();
        match &ms.0[i] {
            MusicPrimitive::Simple(Symbol::NT(NonTerminal::Custom(name))) => {
                match lookup(g, name) {
                    None => {
                        return Err(GrammarError::UndefinedNonTerminal(name.clone()));
                    },
                    Some(k) => {
                        if depth >= MAX_EXPANSION_DEPTH {
                            return Err(GrammarError::ExpansionDepthExceeded);
                        }
                        assert(string_wf(g.productions@[k as int].1));
                        assert(pv[k as int].1 == view_prims(g.productions@[k as int].1.0@));
                        match expand_string(&g.productions[k].1, g, depth + 1) {
                            Ok(sub) => {
                                piece = sub;
                            },
                            Err(e) => {
                                return Err(e);
                            },
                        }
                    },
                }
            },
            MusicPrimitive::Simple(Symbol::T(t)) => {
                let x = MusicPrimitive::Simple(Symbol::T(*t));
                piece.push(x);
                proof {
                    lemma_view_single(x);
                    assert(piece@ =~= seq![x]);
                }
            },
            MusicPrimitive::Split { branches } => {
                proof {
                    assert(decreases_to!(ms => ms.0));
                    assert(decreases_to!(ms.0 => ms.0@));
                    assert(decreases_to!(ms.0@ => ms.0@[i as int]));
                    assert(decreases_to!(ms.0@[i as int] => *branches));
                    assert(decreases_to!(*branches => branches@));
                }
                match expand_branches(branches, g, depth) {
                    Ok(bs) => {
                        let x = MusicPrimitive::Split { branches: bs };
                        piece.push(x);
                        proof {
                            lemma_view_single(x);
                            assert(piece@ =~= seq![x]);
                        }
                    },
                    Err(e) => {
                        return Err(e);
                    },
                }
            },
            MusicPrimitive::Transform { transform, content } => {
                proof {
                    assert(decreases_to!(ms => ms.0));
                    assert(decreases_to!(ms.0 => ms.0@));
                    assert(decreases_to!(ms.0@ => ms.0@[i as int]));
                    assert(decreases_to!(ms.0@[i as int] => *content));
                }
                match expand_string(content, g, depth) {
                    Ok(v) => {
                        let c = MusicString(v);
                        assert(string_closed(c) && string_wf(c));
                        let x = MusicPrimitive::Transform { transform: *transform, content: c };
                        piece.push(x);
                        proof {
                            lemma_view_single(x);
                            assert(piece@ =~= seq![x]);
                        }
                    },
                    Err(e) => {
                        return Err(e);
                    },
                }
            },
        }
        let ghost added = piece@;
        proof {
            assert(expand_one(here[0], pv, depth as int) == Expanded::Done(view_prims(added)));
            lemma_view_prims_append(before, added);
            match expand_seq(next, pv, depth as int) {
                Expanded::Done(rest) => {
                    assert(view_prims(before) + (view_prims(added) + rest) =~= (view_prims(before)
                        + view_prims(added)) + rest);
                },
                _ => {},
            }
        }
        out.append(&mut piece);
        assert forall|j: int| 0 <= j < out@.len() implies primitive_closed(#[trigger] out@[j])
            && primitive_wf(out@[j]) by {
            if j >= before.len() {
                assert(out@[j] == added[j - before.len()]);
            }
        }
        i += 1;
    }
    proof {
        assert(whole.subrange(i as int, whole.len() as int) =~= Seq::<PrimView>::empty());
        assert(view_prims(out@) + Seq::<PrimView>::empty() =~= view_prims(out@));
    }
    Ok(out)
}

fn expand_branches(branches: &Vec<MusicString>, g: &Grammar, depth: usize) -> (r: Result<
    Vec<MusicString>,
    GrammarError,
>)
    requires
        forall|m: int| 0 <= m < branches@.len() ==> string_wf(#[trigger] branches@[m]),
        grammar_wf(*g),
        depth <= MAX_EXPANSION_DEPTH,
    ensures
        match r {
            Ok(bs) => expand_all(view_branches(branches@), productions_view(*g), depth as int)
                == Ok::<Seq<Seq<PrimView>>, Expanded>(view_branches(bs@)),
            Err(e) => exists|x: Expanded|
                expand_all(view_branches(branches@), productions_view(*g), depth as int) == Err::<
                    Seq<Seq<PrimView>>,
                    Expanded,
                >(x) && expansion_matches(Err(e), x),
        },
        r is Ok ==> forall|m: int|
            0 <= m < r->Ok_0@.len() ==> string_closed(#[trigger] r->Ok_0@[m]) && string_wf(
                r->Ok_0@[m],
            ),
    decreases MAX_EXPANSION_DEPTH - depth, branches@,
{
    let ghost pv = productions_view(*g);
    let ghost whole = view_branches(branches@);
    proof {
        lemma_view_branches(branches@);
        assert(whole.subrange(0, whole.len() as int) =~= whole);
        match expand_all(whole, pv, depth as int) {
            Ok(x) => {
                assert(view_branches(Seq::<MusicString>::empty()) + x =~= x);
            },
            _ => {},
        }
    }
    let mut bs: Vec<MusicString> = Vec::new();
    let mut j: usize = 0;
    while j < branches.len()
        invariant
            j <= branches@.len(),
            grammar_wf(*g),
            depth <= MAX_EXPANSION_DEPTH,
            pv == productions_view(*g),
            whole == view_branches(branches@),
            whole.len() == branches@.len(),
            forall|m: int| 0 <= m < branches@.len() ==> #[trigger] whole[m] == view_prims(branches@[m].0@),
            forall|m: int| 0 <= m < branches@.len() ==> string_wf(#[trigger] branches@[m]),
            expand_all(whole, pv, depth as int) == match expand_all(
                whole.subrange(j as int, whole.len() as int),
                pv,
                depth as int,
            ) {
                Ok(xs) => Ok(view_branches(bs@) + xs),
                Err(e) => Err::<Seq<Seq<PrimView>>, Expanded>(e),
            },
            forall|m: int|
                0 <= m < bs@.len() ==> string_closed(#[trigger] bs@[m]) && string_wf(bs@[m]),
        decreases branches@.len() - j,
    {
        proof {
            assert(decreases_to!(branches@ => branches@[j as int]));
        }
        let ghost here = whole.subrange(j as int, whole.len() as int);
        let ghost next = whole.subrange(j + 1, whole.len() as int);
        proof {
            assert(here[0] == view_prims(branches@[j as int].0@));
            assert(here.drop_first() =~= next);
        }
        match expand_string(&branches[j], g, depth) {
            Ok(v) => {
                let b = MusicString(v);
                assert(string_closed(b) && string_wf(b));
                let ghost old_bs = bs@;
                bs.push(b);
                proof {
                    assert(bs@.drop_last() =~= old_bs);
                    match expand_all(next, pv, depth as int) {
                        Ok(xs) => {
                            assert(view_branches(old_bs) + (seq![view_prims(v@)] + xs) =~= view_branches(
                                bs@,
                            ) + xs);
                        },
                        _ => {},
                    }
                }
            },
            Err(e) => {
                return Err(e);
            },
        }
        j += 1;
    }
    proof {
        assert(whole.subrange(j as int, whole.len() as int) =~= Seq::<Seq<PrimView>>::empty());
        assert(view_branches(bs@) + Seq::<Seq<PrimView>>::empty() =~= view_branches(bs@));
    }
    Ok(bs)
}

/// What expanding the grammar from its start symbol gives.
pub open spec fn spec_expansion(g: Grammar) -> Expanded {
    expand_seq(seq![PrimView::NT(name_of(g.start))], productions_view(g), 0)
}

impl Grammar {
    /// The music that the start symbol stands for, with every non-terminal substituted by
    /// its production (the last one, where a name has several).
    pub fn expand(&self) -> (r: Result<MusicString, GrammarError>)
        requires
            grammar_wf(*self),
        ensures
            match r {
                Ok(ms) => spec_expansion(*self) == Expanded::Done(view_prims(ms.0@)),
                Err(GrammarError::UndefinedNonTerminal(name)) => spec_expansion(*self)
                    == Expanded::Undefined(name@),
                Err(GrammarError::ExpansionDepthExceeded) => spec_expansion(*self)
                    == Expanded::TooDeep,
            },
            r is Ok ==> string_closed(r->Ok_0) && string_wf(r->Ok_0),
    {
        let NonTerminal::Custom(name) = &self.start;
        let ghost start = seq![PrimView::NT(name@)];
        let ghost pv = productions_view(*self);
        proof {
            assert(start.drop_first() =~= Seq::<PrimView>::empty());
            assert(start[0] == PrimView::NT(name@));
            assert(expand_seq(Seq::<PrimView>::empty(), pv, 0) == Expanded::Done(Seq::<PrimView>::empty()));
            assert(spec_expansion(*self) == expand_seq(start, pv, 0));
        }
        match lookup(self, name) {
            None => Err(GrammarError::UndefinedNonTerminal(name.clone())),
            Some(k) => {
                assert(string_wf(self.productions@[k as int].1));
                assert(productions_view(*self)[k as int].1 == view_prims(
                    self.productions@[k as int].1.0@,
                ));
                assert(expand_one(start[0], pv, 0) == expand_seq(pv[k as int].1, pv, 1));
                match expand_string(&self.productions[k].1, self, 1) {
                    Ok(v) => {
                        let ms = MusicString(v);
                        assert(string_closed(ms) && string_wf(ms));
                        assert(view_prims(ms.0@) + Seq::<PrimView>::empty() =~= view_prims(ms.0@));
                        Ok(ms)
                    },
                    Err(e) => Err(e),
                }
            },
        }
    }
}

} // verus!
