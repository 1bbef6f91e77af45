//! Weighted edge records and sums over sequences of them.
//!
//! A multigraph is held as a sequence of edge records. How many edges of a
//! colour join two vertices, and how many edges of a colour there are in all,
//! are sums over that sequence; the lemmas here say how such sums behave when
//! the sequence is cut, joined or changed in one place.

use vstd::prelude::*;

verus! {

/// The two colours of a biedged graph: black edges are sequence nodes, gray
/// edges are links between them.
#[derive(Clone, Copy, PartialEq, Eq, Debug, Hash, Structural)]
pub enum EdgeColor {
    Black,
    Gray,
}

/// How many black and how many gray edges one record stands for.
#[derive(Clone, Copy, PartialEq, Eq, Debug, Hash, Structural)]
pub struct BiedgedWeight {
    pub black: usize,
    pub gray: usize,
}

impl BiedgedWeight {
    /// The multiplicity of one colour.
    pub open spec fn count(self, color: EdgeColor) -> nat {
        match color {
            EdgeColor::Black => self.black as nat,
            EdgeColor::Gray => self.gray as nat,
        }
    }

    /// The weight of no edge at all.
    pub fn empty() -> (r: Self)
        ensures
            r.black == 0,
            r.gray == 0,
    {
        BiedgedWeight { black: 0, gray: 0 }
    }

    /// The weight of `black` parallel black edges.
    pub fn black(black: usize) -> (r: Self)
        ensures
            r.black == black,
            r.gray == 0,
    {
        BiedgedWeight { black, gray: 0 }
    }

    /// The weight of `gray` parallel gray edges.
    pub fn gray(gray: usize) -> (r: Self)
        ensures
            r.black == 0,
            r.gray == gray,
    {
        BiedgedWeight { black: 0, gray }
    }

    /// The weight of `n` parallel edges of one colour.
    pub fn of_color(color: EdgeColor, n: usize) -> (r: Self)
        ensures
            r.count(color) == n,
            forall|c: EdgeColor| c != color ==> r.count(c) == 0,
    {
        match color {
            EdgeColor::Black => BiedgedWeight { black: n, gray: 0 },
            EdgeColor::Gray => BiedgedWeight { black: 0, gray: n },
        }
    }

    /// The multiplicity of one colour.
    pub fn get(&self, color: EdgeColor) -> (r: usize)
        ensures
            r == self.count(color),
    {
        match color {
            EdgeColor::Black => self.black,
            EdgeColor::Gray => self.gray,
        }
    }

    pub fn is_empty(&self) -> (r: bool)
        ensures
            r == (self.black == 0 && self.gray == 0),
    {
        self.black == 0 && self.gray == 0
    }
}

/// One record of the edge list: the unordered pair `{from, to}`, written with
/// `from <= to`, and its weight.
#[derive(Clone, Copy, PartialEq, Eq, Debug, Hash, Structural)]
pub struct BiedgedEdge {
    pub from: u64,
    pub to: u64,
    pub weight: BiedgedWeight,
}

/// The unordered pairs `{a, b}` and `{x, y}` are the same.
pub open spec fn same_pair(a: u64, b: u64, x: u64, y: u64) -> bool {
    (a == x && b == y) || (a == y && b == x)
}

impl BiedgedEdge {
    /// This record is the edge between `u` and `v`.
    pub open spec fn joins(self, u: u64, v: u64) -> bool {
        same_pair(self.from, self.to, u, v)
    }

    /// This record stands before `other` in the order of the edge list.
    pub open spec fn before(self, other: BiedgedEdge) -> bool {
        self.from < other.from || (self.from == other.from && self.to < other.to)
    }
}

/// The sum of `f` over the records of `edges`.
pub open spec fn sum_of(edges: Seq<BiedgedEdge>, f: spec_fn(BiedgedEdge) -> nat) -> nat
    decreases edges.len(),
{
    if edges.len() == 0 {
        0
    } else {
        sum_of(edges.drop_last(), f) + f(edges.last())
    }
}

/// What a record counts for one colour.
pub open spec fn of_color(color: EdgeColor) -> spec_fn(BiedgedEdge) -> nat {
    |e: BiedgedEdge| e.weight.count(color)
}

/// What a record counts for one colour between `u` and `v`.
pub open spec fn of_color_between(u: u64, v: u64, color: EdgeColor) -> spec_fn(BiedgedEdge) -> nat {
    |e: BiedgedEdge|
        if e.joins(u, v) {
            e.weight.count(color)
        } else {
            0
        }
}

/// What a record counts for one colour between `x` and `y` once every vertex
/// `a` has been replaced by `p(a)`.
pub open spec fn of_color_between_images(
    p: spec_fn(u64) -> u64,
    x: u64,
    y: u64,
    color: EdgeColor,
) -> spec_fn(BiedgedEdge) -> nat {
    |e: BiedgedEdge|
        if same_pair(p(e.from), p(e.to), x, y) {
            e.weight.count(color)
        } else {
            0
        }
}

/// The number of edges of one colour, each counted with its multiplicity.
pub open spec fn total(edges: Seq<BiedgedEdge>, color: EdgeColor) -> nat {
    sum_of(edges, of_color(color))
}

/// The number of edges of one colour between `u` and `v`.
pub open spec fn between(edges: Seq<BiedgedEdge>, u: u64, v: u64, color: EdgeColor) -> nat {
    sum_of(edges, of_color_between(u, v, color))
}

/// The number of edges of one colour between `x` and `y` in the quotient of
/// the multigraph by `p`: the edges whose endpoints `p` sends to `x` and `y`.
pub open spec fn between_images(
    edges: Seq<BiedgedEdge>,
    p: spec_fn(u64) -> u64,
    x: u64,
    y: u64,
    color: EdgeColor,
) -> nat {
    sum_of(edges, of_color_between_images(p, x, y, color))
}

pub proof fn lemma_sum_concat(a: Seq<BiedgedEdge>, b: Seq<BiedgedEdge>, f: spec_fn(BiedgedEdge) -> nat)
    ensures
        sum_of(a + b, f) == sum_of(a, f) + sum_of(b, f),
    decreases b.len(),
{
    if b.len() == 0 {
        assert(a + b =~= a);
    } else {
        assert((a + b).drop_last() =~= a + b.drop_last());
        assert((a + b).last() == b.last());
        lemma_sum_concat(a, b.drop_last(), f);
    }
}

pub proof fn lemma_sum_single(e: BiedgedEdge, f: spec_fn(BiedgedEdge) -> nat)
    ensures
        sum_of(seq![e], f) == f(e),
{
    assert(seq![e].drop_last() =~= Seq::<BiedgedEdge>::empty());
    assert(sum_of(seq![e].drop_last(), f) == 0);
}

/// A sum is the sum before a place, the term at it and the sum after it.
pub proof fn lemma_sum_split(s: Seq<BiedgedEdge>, i: int, f: spec_fn(BiedgedEdge) -> nat)
    requires
        0 <= i < s.len(),
    ensures
        sum_of(s, f) == sum_of(s.take(i), f) + f(s[i]) + sum_of(s.skip(i + 1), f),
        f(s[i]) <= sum_of(s, f),
{
    assert(s =~= s.take(i) + seq![s[i]] + s.skip(i + 1));
    lemma_sum_concat(s.take(i) + seq![s[i]], s.skip(i + 1), f);
    lemma_sum_concat(s.take(i), seq![s[i]], f);
    lemma_sum_single(s[i], f);
}

/// A sum is the sum of a prefix and of the rest.
pub proof fn lemma_sum_prefix(s: Seq<BiedgedEdge>, k: int, f: spec_fn(BiedgedEdge) -> nat)
    requires
        0 <= k <= s.len(),
    ensures
        sum_of(s, f) == sum_of(s.take(k), f) + sum_of(s.skip(k), f),
        sum_of(s.take(k), f) <= sum_of(s, f),
        k < s.len() ==> sum_of(s.take(k + 1), f) == sum_of(s.take(k), f) + f(s[k]),
        sum_of(s.take(s.len() as int), f) == sum_of(s, f),
{
    assert(s =~= s.take(k) + s.skip(k));
    lemma_sum_concat(s.take(k), s.skip(k), f);
    if k < s.len() {
        assert(s.take(k + 1).drop_last() =~= s.take(k));
    }
    assert(s.take(s.len() as int) =~= s);
}

pub proof fn lemma_sum_insert(s: Seq<BiedgedEdge>, i: int, e: BiedgedEdge, f: spec_fn(BiedgedEdge) -> nat)
    requires
        0 <= i <= s.len(),
    ensures
        sum_of(s.insert(i, e), f) == sum_of(s, f) + f(e),
{
    assert(s.insert(i, e) =~= s.take(i) + seq![e] + s.skip(i));
    lemma_sum_concat(s.take(i) + seq![e], s.skip(i), f);
    lemma_sum_concat(s.take(i), seq![e], f);
    lemma_sum_single(e, f);
    lemma_sum_prefix(s, i, f);
}

pub proof fn lemma_sum_update(s: Seq<BiedgedEdge>, i: int, e: BiedgedEdge, f: spec_fn(BiedgedEdge) -> nat)
    requires
        0 <= i < s.len(),
    ensures
        sum_of(s.update(i, e), f) == sum_of(s, f) - f(s[i]) + f(e),
{
    let t = s.update(i, e);
    lemma_sum_split(s, i, f);
    lemma_sum_split(t, i, f);
    assert(t.take(i) =~= s.take(i));
    assert(t.skip(i + 1) =~= s.skip(i + 1));
}

pub proof fn lemma_sum_remove(s: Seq<BiedgedEdge>, i: int, f: spec_fn(BiedgedEdge) -> nat)
    requires
        0 <= i < s.len(),
    ensures
        sum_of(s.remove(i), f) == sum_of(s, f) - f(s[i]),
{
    lemma_sum_split(s, i, f);
    assert(s.remove(i) =~= s.take(i) + s.skip(i + 1));
    lemma_sum_concat(s.take(i), s.skip(i + 1), f);
}

/// Two functions that agree on every record give the same sum.
pub proof fn lemma_sum_pointwise(
    s: Seq<BiedgedEdge>,
    f: spec_fn(BiedgedEdge) -> nat,
    g: spec_fn(BiedgedEdge) -> nat,
)
    requires
        forall|i: int| 0 <= i < s.len() ==> f(#[trigger] s[i]) == g(s[i]),
    ensures
        sum_of(s, f) == sum_of(s, g),
    decreases s.len(),
{
    if s.len() > 0 {
        assert forall|i: int| 0 <= i < s.drop_last().len() implies f(#[trigger] s.drop_last()[i])
            == g(s.drop_last()[i]) by {
            assert(s.drop_last()[i] == s[i]);
        }
        lemma_sum_pointwise(s.drop_last(), f, g);
        assert(s.last() == s[s.len() - 1]);
    }
}

/// The sum of a function that is the sum of two others on every record.
pub proof fn lemma_sum_add(
    s: Seq<BiedgedEdge>,
    f: spec_fn(BiedgedEdge) -> nat,
    g: spec_fn(BiedgedEdge) -> nat,
    h: spec_fn(BiedgedEdge) -> nat,
)
    requires
        forall|i: int| 0 <= i < s.len() ==> h(#[trigger] s[i]) == f(s[i]) + g(s[i]),
    ensures
        sum_of(s, h) == sum_of(s, f) + sum_of(s, g),
    decreases s.len(),
{
    if s.len() > 0 {
        assert forall|i: int| 0 <= i < s.drop_last().len() implies h(#[trigger] s.drop_last()[i])
            == f(s.drop_last()[i]) + g(s.drop_last()[i]) by {
            assert(s.drop_last()[i] == s[i]);
        }
        lemma_sum_add(s.drop_last(), f, g, h);
        assert(s.last() == s[s.len() - 1]);
    }
}

/// A function that is at most another on every record has at most its sum.
pub proof fn lemma_sum_le(
    s: Seq<BiedgedEdge>,
    f: spec_fn(BiedgedEdge) -> nat,
    g: spec_fn(BiedgedEdge) -> nat,
)
    requires
        forall|i: int| 0 <= i < s.len() ==> f(#[trigger] s[i]) <= g(s[i]),
    ensures
        sum_of(s, f) <= sum_of(s, g),
    decreases s.len(),
{
    if s.len() > 0 {
        assert forall|i: int| 0 <= i < s.drop_last().len() implies f(#[trigger] s.drop_last()[i])
            <= g(s.drop_last()[i]) by {
            assert(s.drop_last()[i] == s[i]);
        }
        lemma_sum_le(s.drop_last(), f, g);
        assert(s.last() == s[s.len() - 1]);
    }
}

/// A sum is zero exactly when every term is.
pub proof fn lemma_sum_zero(s: Seq<BiedgedEdge>, f: spec_fn(BiedgedEdge) -> nat)
    ensures
        sum_of(s, f) == 0 <==> (forall|i: int| 0 <= i < s.len() ==> f(#[trigger] s[i]) == 0),
    decreases s.len(),
{
    if s.len() > 0 {
        lemma_sum_zero(s.drop_last(), f);
        assert(s.last() == s[s.len() - 1]);
        if sum_of(s, f) == 0 {
            assert forall|i: int| 0 <= i < s.len() implies f(#[trigger] s[i]) == 0 by {
                if i < s.len() - 1 {
                    assert(s.drop_last()[i] == s[i]);
                }
            }
        }
        if forall|i: int| 0 <= i < s.len() ==> f(#[trigger] s[i]) == 0 {
            assert forall|i: int| 0 <= i < s.drop_last().len() implies f(#[trigger] s.drop_last()[i])
                == 0 by {
                assert(s.drop_last()[i] == s[i]);
            }
        }
    }
}

/// The edges between two vertices do not depend on the order in which the
/// two are named.
pub proof fn lemma_between_symmetric(edges: Seq<BiedgedEdge>, u: u64, v: u64, color: EdgeColor)
    ensures
        between(edges, u, v, color) == between(edges, v, u, color),
{
    lemma_sum_pointwise(edges, of_color_between(u, v, color), of_color_between(v, u, color));
}

/// The edges between two vertices are among the edges of the graph.
pub proof fn lemma_between_le_total(edges: Seq<BiedgedEdge>, u: u64, v: u64, color: EdgeColor)
    ensures
        between(edges, u, v, color) <= total(edges, color),
{
    lemma_sum_le(edges, of_color_between(u, v, color), of_color(color));
}

/// Where `p` moves no endpoint of any record, the quotient by `p` is the
/// graph itself.
pub proof fn lemma_images_of_fixed(
    edges: Seq<BiedgedEdge>,
    p: spec_fn(u64) -> u64,
    x: u64,
    y: u64,
    color: EdgeColor,
)
    requires
        forall|i: int|
            0 <= i < edges.len() ==> p((#[trigger] edges[i]).from) == edges[i].from && p(
                edges[i].to,
            ) == edges[i].to,
    ensures
        between_images(edges, p, x, y, color) == between(edges, x, y, color),
{
    lemma_sum_pointwise(
        edges,
        of_color_between_images(p, x, y, color),
        of_color_between(x, y, color),
    );
}

/// Two maps that agree on the endpoints of every record give the same
/// quotient.
pub proof fn lemma_images_agree(
    edges: Seq<BiedgedEdge>,
    p: spec_fn(u64) -> u64,
    q: spec_fn(u64) -> u64,
    x: u64,
    y: u64,
    color: EdgeColor,
)
    requires
        forall|i: int|
            0 <= i < edges.len() ==> p((#[trigger] edges[i]).from) == q(edges[i].from) && p(
                edges[i].to,
            ) == q(edges[i].to),
    ensures
        between_images(edges, p, x, y, color) == between_images(edges, q, x, y, color),
{
    lemma_sum_pointwise(
        edges,
        of_color_between_images(p, x, y, color),
        of_color_between_images(q, x, y, color),
    );
}

/// The edges between `x` and `y` in the quotient by `p`, once `dropped` has
/// been merged into `kept`: the edges of `kept` are those that `kept` or
/// `dropped` had, and `dropped` has none.
pub open spec fn images_after_merge(
    edges: Seq<BiedgedEdge>,
    p: spec_fn(u64) -> u64,
    kept: u64,
    dropped: u64,
    x: u64,
    y: u64,
    color: EdgeColor,
) -> nat {
    if x == dropped || y == dropped {
        0
    } else if x == kept && y == kept {
        between_images(edges, p, kept, kept, color) + between_images(
            edges,
            p,
            kept,
            dropped,
            color,
        ) + between_images(edges, p, dropped, dropped, color)
    } else if x == kept {
        between_images(edges, p, kept, y, color) + between_images(edges, p, dropped, y, color)
    } else if y == kept {
        between_images(edges, p, x, kept, color) + between_images(edges, p, x, dropped, color)
    } else {
        between_images(edges, p, x, y, color)
    }
}

/// The quotient by a map that sends `dropped` on to `kept` after `p` is the
/// quotient by `p` with `dropped` merged into `kept`.
pub proof fn lemma_images_after_merge(
    edges: Seq<BiedgedEdge>,
    p: spec_fn(u64) -> u64,
    q: spec_fn(u64) -> u64,
    kept: u64,
    dropped: u64,
    x: u64,
    y: u64,
    color: EdgeColor,
)
    requires
        kept != dropped,
        forall|i: int|
            0 <= i < edges.len() ==> {
                &&& q((#[trigger] edges[i]).from) == (if p(edges[i].from) == dropped {
                    kept
                } else {
                    p(edges[i].from)
                })
                &&& q(edges[i].to) == (if p(edges[i].to) == dropped {
                    kept
                } else {
                    p(edges[i].to)
                })
            },
    ensures
        between_images(edges, q, x, y, color) == images_after_merge(
            edges,
            p,
            kept,
            dropped,
            x,
            y,
            color,
        ),
{
    let target = of_color_between_images(q, x, y, color);
    if x == dropped || y == dropped {
        lemma_sum_zero(edges, target);
    } else if x == kept && y == kept {
        let kk = of_color_between_images(p, kept, kept, color);
        let kd = of_color_between_images(p, kept, dropped, color);
        let dd = of_color_between_images(p, dropped, dropped, color);
        let first = |e: BiedgedEdge| kk(e) + kd(e);
        lemma_sum_add(edges, kk, kd, first);
        lemma_sum_add(edges, first, dd, target);
    } else if x == kept {
        let ky = of_color_between_images(p, kept, y, color);
        let dy = of_color_between_images(p, dropped, y, color);
        lemma_sum_add(edges, ky, dy, target);
    } else if y == kept {
        let xk = of_color_between_images(p, x, kept, color);
        let xd = of_color_between_images(p, x, dropped, color);
        lemma_sum_add(edges, xk, xd, target);
    } else {
        lemma_sum_pointwise(edges, target, of_color_between_images(p, x, y, color));
    }
}

/// A pair with an edge in the quotient by `p` has a record that `p` sends
/// to it.
pub proof fn lemma_image_has_record(
    edges: Seq<BiedgedEdge>,
    p: spec_fn(u64) -> u64,
    x: u64,
    y: u64,
    color: EdgeColor,
) -> (i: int)
    requires
        between_images(edges, p, x, y, color) > 0,
    ensures
        0 <= i < edges.len(),
        same_pair(p(edges[i].from), p(edges[i].to), x, y),
        edges[i].weight.count(color) > 0,
{
    let f = of_color_between_images(p, x, y, color);
    lemma_sum_zero(edges, f);
    choose|i: int| 0 <= i < edges.len() && f(#[trigger] edges[i]) != 0
}

/// A record counts among the edges between the images of its endpoints.
pub proof fn lemma_record_in_image(
    edges: Seq<BiedgedEdge>,
    p: spec_fn(u64) -> u64,
    i: int,
    color: EdgeColor,
)
    requires
        0 <= i < edges.len(),
    ensures
        edges[i].weight.count(color) <= between_images(
            edges,
            p,
            p(edges[i].from),
            p(edges[i].to),
            color,
        ),
        edges[i].weight.count(color) <= between(edges, edges[i].from, edges[i].to, color),
{
    lemma_sum_split(
        edges,
        i,
        of_color_between_images(p, p(edges[i].from), p(edges[i].to), color),
    );
    lemma_sum_split(edges, i, of_color_between(edges[i].from, edges[i].to, color));
}

/// A pair with an edge of some colour has a record.
pub proof fn lemma_edge_has_record(edges: Seq<BiedgedEdge>, u: u64, v: u64, color: EdgeColor) -> (i:
    int)
    requires
        between(edges, u, v, color) > 0,
    ensures
        0 <= i < edges.len(),
        edges[i].joins(u, v),
        edges[i].weight.count(color) > 0,
{
    let f = of_color_between(u, v, color);
    lemma_sum_zero(edges, f);
    choose|i: int| 0 <= i < edges.len() && f(#[trigger] edges[i]) != 0
}

} // verus!
