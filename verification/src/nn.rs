//! The relational graph convolution, apart from its tensors.
//!
//! The layer computes `sum over r of A_r X W_r, plus X W_self`. Which transform
//! serves which relation, and in what order the messages are added to the
//! self-loop, is decided here; the tensors themselves are handed in as
//! functions.
use vstd::prelude::*;

verus! {

/// The shape of a relational graph convolution layer.
#[derive(Clone, Copy, Debug, PartialEq, Eq)]
pub struct RGCNConv {
    /// Features of a node before the layer.
    pub d_in: usize,
    /// Features of a node after the layer.
    pub d_out: usize,
    /// Number of per-relation transforms; zero when basis-decomposed.
    pub rel: usize,
    /// Shape of the shared bases, `[num_bases, d_in, d_out]` (basis mode only).
    pub basis: Option<[usize; 3]>,
    /// Shape of the per-relation coefficients, `[num_relations, num_bases]`
    /// (basis mode only).
    pub coef: Option<[usize; 2]>,
}

/// Where the transform of one relation comes from.
#[derive(Clone, Copy, Debug, PartialEq, Eq)]
pub enum Transform {
    /// The relation's own linear layer.
    Own {
        /// The relation.
        relation: usize,
    },
    /// The relation's row of coefficients times the bases, as a matrix.
    Mixed {
        /// The relation, which is the row of the product.
        relation: usize,
        /// Rows of the matrix.
        d_in: usize,
        /// Columns of the matrix.
        d_out: usize,
    },
}

impl RGCNConv {
    /// Bases and coefficients come together, agree on the number of bases and
    /// with the layer on its features, and leave no transforms of single
    /// relations.
    pub open spec fn wf(self) -> bool {
        match (self.basis, self.coef) {
            (None, None) => true,
            (Some(basis), Some(coef)) => self.rel == 0 && basis@ == seq![
                coef@[1],
                self.d_in,
                self.d_out,
            ],
            _ => false,
        }
    }

    /// Number of relation types that the layer expects.
    pub open spec fn relations(self) -> usize {
        match self.coef {
            Some(coef) => coef@[0],
            None => self.rel,
        }
    }

    /// The transform of relation `r`.
    pub open spec fn transform(self, r: int) -> Transform {
        match self.basis {
            Some(basis) => Transform::Mixed {
                relation: r as usize,
                d_in: basis@[1],
                d_out: basis@[2],
            },
            None => Transform::Own { relation: r as usize },
        }
    }

    /// Number of weights and coefficients that the relation transforms hold.
    pub open spec fn relation_parameters(self) -> int {
        match (self.basis, self.coef) {
            (Some(basis), Some(coef)) => basis@[0] * (basis@[1] * basis@[2]) + coef@[0] * coef@[1],
            _ => self.rel * (self.d_in * self.d_out),
        }
    }

    /// One full transform per relation.
    pub fn init(d_in: usize, d_out: usize, num_relations: usize) -> (layer: RGCNConv)
        ensures
            layer.wf(),
            layer.d_in == d_in,
            layer.d_out == d_out,
            layer.relations() == num_relations,
            layer.rel == num_relations,
            layer.basis is None,
    {
        RGCNConv { d_in, d_out, rel: num_relations, basis: None, coef: None }
    }

    /// Basis-decomposed transforms: `num_bases` shared matrices with
    /// coefficients for each relation.
    pub fn with_bases(d_in: usize, d_out: usize, num_relations: usize, num_bases: usize) -> (layer:
        RGCNConv)
        ensures
            layer.wf(),
            layer.d_in == d_in,
            layer.d_out == d_out,
            layer.relations() == num_relations,
            layer.basis matches Some(basis) && basis@ == seq![num_bases, d_in, d_out],
            layer.coef matches Some(coef) && coef@ == seq![num_relations, num_bases],
    {
        let layer = RGCNConv {
            d_in,
            d_out,
            rel: 0,
            basis: Some([num_bases, d_in, d_out]),
            coef: Some([num_relations, num_bases]),
        };
        assert(layer.basis->Some_0@ =~= seq![num_bases, d_in, d_out]);
        assert(layer.coef->Some_0@ =~= seq![num_relations, num_bases]);
        layer
    }

    /// Number of relation types that the layer expects.
    pub fn num_relations(&self) -> (n: usize)
        ensures
            n == self.relations(),
            self.coef matches Some(c) ==> n == c@[0],
            self.coef is None ==> n == self.rel,
    {
        match &self.coef {
            Some(coef) => coef[0],
            None => self.rel,
        }
    }

    /// `out` is the self-loop with the messages of the first `n` relations
    /// added one after the other.
    pub open spec fn accumulates<T, M: Fn(Transform) -> T, A: Fn(T, T) -> T>(
        self,
        self_loop: T,
        n: nat,
        message: M,
        combine: A,
        out: T,
    ) -> bool
        decreases n,
    {
        if n == 0 {
            out == self_loop
        } else {
            exists|prev: T, m: T|
                self.accumulates(self_loop, (n - 1) as nat, message, combine, prev)
                    && call_ensures(message, (self.transform(n - 1),), m)
                    && #[trigger] call_ensures(combine, (prev, m), out)
        }
    }

    /// The self-loop with the message of every relation added, in the order of
    /// the relations. `message` computes `A_r X W_r` with the given transform;
    /// there is one adjacency for each relation.
    pub fn forward<T, M: Fn(Transform) -> T, A: Fn(T, T) -> T>(
        &self,
        self_loop: T,
        adjacencies: usize,
        message: M,
        combine: A,
    ) -> (out: T)
        requires
            self.wf(),
            adjacencies == self.relations(),
            forall|r: int|
                0 <= r < adjacencies ==> call_requires(message, (#[trigger] self.transform(r),)),
            forall|a: T, b: T| #[trigger] call_requires(combine, (a, b)),
        ensures
            self.accumulates(self_loop, adjacencies as nat, message, combine, out),
            exists|sums: Seq<T>, sent: Seq<T>|
                #![trigger sums.len(), sent.len()]
                sums.len() == adjacencies + 1 && sent.len() == adjacencies && sums[0] == self_loop
                    && sums[adjacencies as int] == out && forall|r: int|
                    0 <= r < adjacencies ==> call_ensures(
                        message,
                        (match self.basis {
                            Some(b) => Transform::Mixed {
                                relation: r as usize,
                                d_in: b@[1],
                                d_out: b@[2],
                            },
                            None => Transform::Own { relation: r as usize },
                        },),
                        #[trigger] sent[r],
                    ) && call_ensures(combine, (sums[r], sent[r]), sums[r + 1]),
    {
        let ghost start = self_loop;
        let mut out: T = self_loop;
        let mut relation: usize = 0;
        while relation < adjacencies
            invariant
                self.wf(),
                forall|r: int|
                    0 <= r < adjacencies ==> call_requires(
                        message,
                        (#[trigger] self.transform(r),),
                    ),
                forall|a: T, b: T| #[trigger] call_requires(combine, (a, b)),
                relation <= adjacencies,
                self.accumulates(start, relation as nat, message, combine, out),
            decreases adjacencies - relation,
        {
            let transform: Transform = match &self.basis {
                Some(basis) => Transform::Mixed { relation, d_in: basis[1], d_out: basis[2] },
                None => Transform::Own { relation },
            };
            assert(transform == self.transform(relation as int));
            let m: T = message(transform);
            out = combine(out, m);
            relation = relation + 1;
        }
        proof {
            let (sums, sent) = every_relation_contributes_once(
                *self,
                start,
                adjacencies as nat,
                message,
                combine,
                out,
            );
            assert(sums.len() == adjacencies + 1 && sent.len() == adjacencies);
        }
        out
    }
}

/// The messages of relations `0`, `1`, up to `n - 1` are sent once each, with
/// the transform of their relation, and added one after the other: the sums
/// start with the self-loop and end with the result.
pub proof fn every_relation_contributes_once<T, M: Fn(Transform) -> T, A: Fn(T, T) -> T>(
    layer: RGCNConv,
    self_loop: T,
    n: nat,
    message: M,
    combine: A,
    out: T,
) -> (r: (Seq<T>, Seq<T>))
    requires
        layer.accumulates(self_loop, n, message, combine, out),
    ensures
        r.0.len() == n + 1,
        r.1.len() == n,
        r.0[0] == self_loop,
        r.0[n as int] == out,
        forall|k: int|
            0 <= k < n ==> call_ensures(
                message,
                (match layer.basis {
                    Some(b) => Transform::Mixed {
                        relation: k as usize,
                        d_in: b@[1],
                        d_out: b@[2],
                    },
                    None => Transform::Own { relation: k as usize },
                },),
                #[trigger] r.1[k],
            ) && call_ensures(combine, (r.0[k], r.1[k]), r.0[k + 1]),
    decreases n,
{
    if n == 0 {
        (seq![self_loop], Seq::empty())
    } else {
        let (prev, m) = choose|prev: T, m: T|
            layer.accumulates(self_loop, (n - 1) as nat, message, combine, prev) && call_ensures(
                message,
                (layer.transform(n - 1),),
                m,
            ) && #[trigger] call_ensures(combine, (prev, m), out);
        let (sums, sent) = every_relation_contributes_once(
            layer,
            self_loop,
            (n - 1) as nat,
            message,
            combine,
            prev,
        );
        let (longer, more) = (sums.push(out), sent.push(m));
        assert forall|k: int| 0 <= k < n implies call_ensures(
            message,
            (match layer.basis {
                Some(b) => Transform::Mixed { relation: k as usize, d_in: b@[1], d_out: b@[2] },
                None => Transform::Own { relation: k as usize },
            },),
            #[trigger] more[k],
        ) && call_ensures(combine, (longer[k], more[k]), longer[k + 1]) by {
            if k < n - 1 {
                assert(more[k] == sent[k]);
                assert(longer[k] == sums[k]);
                assert(longer[k + 1] == sums[k + 1]);
            }
        }
        (longer, more)
    }
}

/// With a message and a sum that are functions, the result is the left fold of
/// the sum over the messages of all relations, in basis mode as without bases.
pub proof fn forward_folds_all_messages<T, M: Fn(Transform) -> T, A: Fn(T, T) -> T>(
    layer: RGCNConv,
    self_loop: T,
    message: M,
    combine: A,
    f: spec_fn(Transform) -> T,
    g: spec_fn(T, T) -> T,
    out: T,
)
    requires
        layer.wf(),
        forall|t: Transform, m: T| #[trigger] call_ensures(message, (t,), m) ==> m == f(t),
        forall|a: T, b: T, c: T| #[trigger] call_ensures(combine, (a, b), c) ==> c == g(a, b),
        layer.accumulates(self_loop, layer.relations() as nat, message, combine, out),
    ensures
        layer.coef matches Some(c) ==> layer.basis matches Some(b) && out == Seq::new(
            c@[0] as nat,
            |r: int|
                f(Transform::Mixed { relation: r as usize, d_in: b@[1], d_out: b@[2] }),
        ).fold_left(self_loop, g),
        layer.coef is None ==> out == Seq::new(
            layer.rel as nat,
            |r: int| f(Transform::Own { relation: r as usize }),
        ).fold_left(self_loop, g),
{
    let n = layer.relations() as nat;
    let (sums, sent) = every_relation_contributes_once(
        layer,
        self_loop,
        n,
        message,
        combine,
        out,
    );
    lemma_sums_fold(sums, sent, g);
    match layer.basis {
        Some(b) => {
            assert(sent =~= Seq::new(
                n,
                |r: int| f(Transform::Mixed { relation: r as usize, d_in: b@[1], d_out: b@[2] }),
            ));
        },
        None => {
            assert(sent =~= Seq::new(
                n,
                |r: int| f(Transform::Own { relation: r as usize }),
            ));
        },
    }
}

proof fn lemma_sums_fold<T>(sums: Seq<T>, sent: Seq<T>, g: spec_fn(T, T) -> T)
    requires
        sums.len() == sent.len() + 1,
        forall|k: int| 0 <= k < sent.len() ==> sums[k + 1] == g(sums[k], #[trigger] sent[k]),
    ensures
        sums[sent.len() as int] == sent.fold_left(sums[0], g),
    decreases sent.len(),
{
    if sent.len() > 0 {
        let (fewer, before) = (sums.drop_last(), sent.drop_last());
        assert forall|k: int| 0 <= k < before.len() implies fewer[k + 1] == g(
            fewer[k],
            #[trigger] before[k],
        ) by {
            assert(before[k] == sent[k]);
        }
        lemma_sums_fold(fewer, before, g);
        assert(sums[sent.len() as int] == g(sums[sent.len() - 1], sent[sent.len() - 1]));
    }
}

/// Adding the message of relation `r` to the self-loop changes nothing.
pub open spec fn is_silent<T, M: Fn(Transform) -> T, A: Fn(T, T) -> T>(
    layer: RGCNConv,
    self_loop: T,
    message: M,
    combine: A,
    r: int,
) -> bool {
    forall|m: T, sum: T|
        call_ensures(message, (layer.transform(r),), m) && #[trigger] call_ensures(
            combine,
            (self_loop, m),
            sum,
        ) ==> sum == self_loop
}

/// Without relations, or where no relation has anything to add, as when no
/// adjacency has an edge, the layer is the self-loop alone.
pub proof fn silent_relations_leave_the_self_loop<T, M: Fn(Transform) -> T, A: Fn(T, T) -> T>(
    layer: RGCNConv,
    self_loop: T,
    message: M,
    combine: A,
    out: T,
)
    requires
        forall|r: int|
            0 <= r < layer.relations() ==> #[trigger] is_silent(
                layer,
                self_loop,
                message,
                combine,
                r,
            ),
        layer.accumulates(self_loop, layer.relations() as nat, message, combine, out),
    ensures
        out == self_loop,
{
    lemma_silent_prefix(layer, self_loop, layer.relations() as nat, message, combine, out);
}

proof fn lemma_silent_prefix<T, M: Fn(Transform) -> T, A: Fn(T, T) -> T>(
    layer: RGCNConv,
    self_loop: T,
    n: nat,
    message: M,
    combine: A,
    out: T,
)
    requires
        forall|r: int| 0 <= r < n ==> #[trigger] is_silent(layer, self_loop, message, combine, r),
        layer.accumulates(self_loop, n, message, combine, out),
    ensures
        out == self_loop,
    decreases n,
{
    if n > 0 {
        let (prev, m) = choose|prev: T, m: T|
            layer.accumulates(self_loop, (n - 1) as nat, message, combine, prev) && call_ensures(
                message,
                (layer.transform(n - 1),),
                m,
            ) && #[trigger] call_ensures(combine, (prev, m), out);
        lemma_silent_prefix(layer, self_loop, (n - 1) as nat, message, combine, prev);
        assert(is_silent(layer, self_loop, message, combine, n - 1));
    }
}

/// Different relations have different transforms.
pub proof fn relations_keep_their_own_transforms(layer: RGCNConv, r: int, s: int)
    requires
        0 <= r < layer.relations(),
        0 <= s < layer.relations(),
        r != s,
    ensures
        layer.transform(r) != layer.transform(s),
{
}

/// With bases, one more relation costs one coefficient per basis, whatever the
/// size of its matrix.
pub proof fn bases_make_relations_cheap(layer: RGCNConv, more: RGCNConv)
    requires
        layer.wf(),
        more.wf(),
        layer.basis is Some,
        more.basis == layer.basis,
        more.relations() == layer.relations() + 1,
    ensures
        more.relation_parameters() == layer.relation_parameters() + layer.basis->Some_0@[0],
{
    let (c, n) = (layer.coef->Some_0@[0] as int, layer.coef->Some_0@[1] as int);
    assert((c + 1) * n == c * n + n) by (nonlinear_arith);
}

} // verus!
