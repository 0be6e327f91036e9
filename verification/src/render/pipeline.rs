use vstd::prelude::*;

verus! {

/// The output of one vertex of a polygon clipped against one edge
/// (Sutherland–Hodgman): a vertex inside is kept, preceded by the crossing point
/// when its predecessor lies outside; a vertex outside contributes only the
/// crossing point, when its predecessor lies inside.
pub open spec fn clip_step<T>(input: Seq<T>, inside: Seq<bool>, crossings: Seq<T>, i: int) -> Seq<
    T,
> {
    let prev = if i == 0 {
        input.len() - 1
    } else {
        i - 1
    };
    if inside[i] {
        if !inside[prev] {
            seq![crossings[i], input[i]]
        } else {
            seq![input[i]]
        }
    } else if inside[prev] {
        seq![crossings[i]]
    } else {
        Seq::empty()
    }
}

/// The clipped polygon contributed by the first `k` vertices.
pub open spec fn clip_prefix<T>(input: Seq<T>, inside: Seq<bool>, crossings: Seq<T>, k: nat) -> Seq<
    T,
>
    decreases k,
{
    if k == 0 {
        Seq::empty()
    } else {
        clip_prefix(input, inside, crossings, (k - 1) as nat) + clip_step(
            input,
            inside,
            crossings,
            k - 1,
        )
    }
}

/// A polygon clipped against one edge, given which of its vertices lie inside and,
/// for each vertex, where the segment from its predecessor crosses the edge.
pub open spec fn clip_polygon<T>(input: Seq<T>, inside: Seq<bool>, crossings: Seq<T>) -> Seq<T> {
    clip_prefix(input, inside, crossings, input.len())
}

/// The fan of triangles that a convex polygon splits into: the first vertex with each
/// pair of consecutive later ones.
pub open spec fn fan<T>(verts: Seq<T>) -> Seq<(T, T, T)> {
    if verts.len() < 3 {
        Seq::empty()
    } else {
        Seq::new((verts.len() - 2) as nat, |k: int| (verts[0], verts[k + 1], verts[k + 2]))
    }
}

/// The stages of the triangle pipeline that do not depend on coordinates.
pub struct Pipeline {}

impl Pipeline {
    pub fn new() -> Self {
        Pipeline {  }
    }

    /// Clips a polygon against one edge (one pass of Sutherland–Hodgman): `inside[i]`
    /// says whether vertex i lies inside the edge, and `crossings[i]` is where the
    /// segment from vertex i - 1 (cyclically) to vertex i crosses it.
    pub fn clip_polygon_edge<T: Copy>(&self, input: &Vec<T>, inside: &Vec<bool>, crossings: &Vec<T>) -> (out: Vec<T>)
        requires
            inside@.len() == input@.len(),
            crossings@.len() == input@.len(),
        ensures
            out@ == clip_polygon(input@, inside@, crossings@),
    {
        let n = input.len();
        let mut out: Vec<T> = Vec::new();
        let mut i: usize = 0;
        while i < n
            invariant
                n == input@.len(),
                inside@.len() == n,
                crossings@.len() == n,
                i <= n,
                out@ == clip_prefix(input@, inside@, crossings@, i as nat),
            decreases n - i,
        {
            let prev = if i == 0 {
                n - 1
            } else {
                i - 1
            };
            let current_point = input[i];
            let intersecting_point = crossings[i];
            if inside[i] {
                if !inside[prev] {
                    out.push(intersecting_point);
                }
                out.push(current_point);
            } else if inside[prev] {
                out.push(intersecting_point);
            }
            proof {
                let step = clip_step(input@, inside@, crossings@, i as int);
                assert(clip_prefix(input@, inside@, crossings@, (i + 1) as nat) == clip_prefix(
                    input@,
                    inside@,
                    crossings@,
                    i as nat,
                ) + step);
            }
            assert(out@ =~= clip_prefix(input@, inside@, crossings@, (i + 1) as nat));
            i = i + 1;
        }
        out
    }

    /// Splits a convex polygon into the fan of triangles around its first vertex;
    /// fewer than three vertices give no triangle.
    pub fn fan_triangles<T: Copy>(&self, verts: &Vec<T>) -> (tris: Vec<(T, T, T)>)
        ensures
            tris@ == fan(verts@),
    {
        let mut tris: Vec<(T, T, T)> = Vec::new();
        if verts.len() > 0 {
            let n = verts.len();
            let mut i: usize = 1;
            while i < n - 1
                invariant
                    n == verts@.len(),
                    n > 0,
                    1 <= i,
                    i <= n,
                    n >= 2 ==> i <= n - 1,
                    tris@.len() == i - 1,
                    forall|k: int|
                        0 <= k < i - 1 ==> #[trigger] tris@[k] == (verts@[0], verts@[k + 1], verts@[k + 2]),
                decreases n - i,
            {
                tris.push((verts[0], verts[i], verts[i + 1]));
                i = i + 1;
            }
            if n >= 3 {
                assert(i == n - 1);
                assert(tris@.len() == fan(verts@).len());
                assert forall|k: int| 0 <= k < tris@.len() implies tris@[k] == fan(verts@)[k] by {}
            }
        }
        assert(tris@ =~= fan(verts@));
        tris
    }
}

/// Clipping keeps a polygon whose vertices all lie inside the edge.
pub proof fn lemma_clip_all_inside<T>(input: Seq<T>, inside: Seq<bool>, crossings: Seq<T>)
    requires
        inside.len() == input.len(),
        crossings.len() == input.len(),
        forall|i: int| 0 <= i < inside.len() ==> #[trigger] inside[i],
    ensures
        clip_polygon(input, inside, crossings) == input,
{
    lemma_clip_prefix_all_inside(input, inside, crossings, input.len());
    assert(input.take(input.len() as int) =~= input);
}

proof fn lemma_clip_prefix_all_inside<T>(input: Seq<T>, inside: Seq<bool>, crossings: Seq<T>, k: nat)
    requires
        inside.len() == input.len(),
        crossings.len() == input.len(),
        k <= input.len(),
        forall|i: int| 0 <= i < inside.len() ==> #[trigger] inside[i],
    ensures
        clip_prefix(input, inside, crossings, k) == input.take(k as int),
    decreases k,
{
    if k > 0 {
        lemma_clip_prefix_all_inside(input, inside, crossings, (k - 1) as nat);
        let prev = if k - 1 == 0 {
            input.len() - 1
        } else {
            k - 2
        };
        assert(inside[prev]);
        assert(input.take(k as int) =~= input.take(k - 1) + seq![input[k - 1]]);
    }
}

/// Clipping removes a polygon whose vertices all lie outside the edge.
pub proof fn lemma_clip_all_outside<T>(input: Seq<T>, inside: Seq<bool>, crossings: Seq<T>)
    requires
        inside.len() == input.len(),
        crossings.len() == input.len(),
        forall|i: int| 0 <= i < inside.len() ==> !#[trigger] inside[i],
    ensures
        clip_polygon(input, inside, crossings).len() == 0,
{
    lemma_clip_prefix_all_outside(input, inside, crossings, input.len());
}

proof fn lemma_clip_prefix_all_outside<T>(input: Seq<T>, inside: Seq<bool>, crossings: Seq<T>, k: nat)
    requires
        inside.len() == input.len(),
        crossings.len() == input.len(),
        k <= input.len(),
        forall|i: int| 0 <= i < inside.len() ==> !#[trigger] inside[i],
    ensures
        clip_prefix(input, inside, crossings, k).len() == 0,
    decreases k,
{
    if k > 0 {
        lemma_clip_prefix_all_outside(input, inside, crossings, (k - 1) as nat);
        let prev = if k - 1 == 0 {
            input.len() - 1
        } else {
            k - 2
        };
        assert(!inside[prev]);
    }
}

/// A polygon of n ≥ 3 vertices splits into n - 2 triangles, each holding the first
/// vertex and two consecutive later ones.
pub proof fn lemma_fan_count<T>(verts: Seq<T>)
    requires
        verts.len() >= 3,
    ensures
        fan(verts).len() == verts.len() - 2,
        forall|k: int|
            0 <= k < fan(verts).len() ==> #[trigger] fan(verts)[k] == (
                verts[0],
                verts[k + 1],
                verts[k + 2],
            ),
{
}

/// The vertex after vertex `j` around a closed polygon of `n` vertices.
pub open spec fn next_vertex(j: int, n: int) -> int {
    if j + 1 == n {
        0
    } else {
        j + 1
    }
}

/// The number of the first `k` vertices that lie inside.
pub open spec fn inside_count(inside: Seq<bool>, k: nat) -> nat
    decreases k,
{
    if k == 0 {
        0
    } else {
        inside_count(inside, (k - 1) as nat) + (if inside[k - 1] {
            1nat
        } else {
            0nat
        })
    }
}

/// The number of the first `k` edges of the closed polygon, edge `j` joining vertex `j`
/// to the next, whose ends lie on different sides of the clip edge.
pub open spec fn crossing_count(inside: Seq<bool>, k: nat) -> nat
    decreases k,
{
    if k == 0 {
        0
    } else {
        crossing_count(inside, (k - 1) as nat) + (if inside[k - 1] != inside[next_vertex(
            k - 1,
            inside.len() as int,
        )] {
            1nat
        } else {
            0nat
        })
    }
}

proof fn lemma_clip_prefix_len<T>(input: Seq<T>, inside: Seq<bool>, crossings: Seq<T>, k: nat)
    requires
        inside.len() == input.len(),
        crossings.len() == input.len(),
        1 <= k <= input.len(),
    ensures
        clip_prefix(input, inside, crossings, k).len() == inside_count(inside, k) + crossing_count(
            inside,
            (k - 1) as nat,
        ) + (if inside[0] != inside[input.len() - 1] {
            1nat
        } else {
            0nat
        }),
    decreases k,
{
    let i = k - 1;
    let before = if i == 0 {
        input.len() - 1
    } else {
        i - 1
    };
    let st = clip_step(input, inside, crossings, i);
    assert(st.len() == (if inside[i] {
        1nat
    } else {
        0nat
    }) + (if inside[i] != inside[before] {
        1nat
    } else {
        0nat
    }));
    assert(clip_prefix(input, inside, crossings, k) == clip_prefix(
        input,
        inside,
        crossings,
        (k - 1) as nat,
    ) + st);
    assert(inside_count(inside, k) == inside_count(inside, (k - 1) as nat) + (if inside[i] {
        1nat
    } else {
        0nat
    }));
    if k > 1 {
        lemma_clip_prefix_len(input, inside, crossings, (k - 1) as nat);
        assert(next_vertex(k - 2, input.len() as int) == k - 1);
        assert(crossing_count(inside, (k - 1) as nat) == crossing_count(inside, (k - 2) as nat) + (
        if inside[k - 2] != inside[k - 1] {
            1nat
        } else {
            0nat
        }));
    } else {
        assert(inside_count(inside, 0) == 0);
        assert(crossing_count(inside, 0) == 0);
        assert(clip_prefix(input, inside, crossings, 0).len() == 0);
    }
}

/// Clipping treats the polygon as closed: the clipped polygon has one vertex for each
/// vertex inside the edge and one crossing point for each edge of the polygon, the
/// closing edge from the last vertex to the first included, whose ends lie on
/// different sides.
pub proof fn lemma_clip_len<T>(input: Seq<T>, inside: Seq<bool>, crossings: Seq<T>)
    requires
        inside.len() == input.len(),
        crossings.len() == input.len(),
    ensures
        clip_polygon(input, inside, crossings).len() == inside_count(inside, input.len())
            + crossing_count(inside, input.len()),
{
    let n = input.len();
    if n > 0 {
        lemma_clip_prefix_len(input, inside, crossings, n);
        assert(next_vertex(n - 1, n as int) == 0);
    }
}

proof fn lemma_clip_prefix_keeps<T>(
    input: Seq<T>,
    inside: Seq<bool>,
    crossings: Seq<T>,
    k: nat,
    j: nat,
)
    requires
        inside.len() == input.len(),
        crossings.len() == input.len(),
        j < k <= input.len(),
    ensures
        forall|m: int|
            0 <= m < clip_step(input, inside, crossings, j as int).len() ==> clip_prefix(
                input,
                inside,
                crossings,
                k,
            ).contains(#[trigger] clip_step(input, inside, crossings, j as int)[m]),
    decreases k,
{
    let step = clip_step(input, inside, crossings, j as int);
    let pre = clip_prefix(input, inside, crossings, (k - 1) as nat);
    let last = clip_step(input, inside, crossings, k - 1);
    assert(clip_prefix(input, inside, crossings, k) == pre + last);
    if j < k - 1 {
        lemma_clip_prefix_keeps(input, inside, crossings, (k - 1) as nat, j);
        assert forall|m: int| 0 <= m < step.len() implies (pre + last).contains(#[trigger] step[m]) by {
            let t = choose|t: int| 0 <= t < pre.len() && pre[t] == step[m];
            assert((pre + last)[t] == step[m]);
        }
    } else {
        assert forall|m: int| 0 <= m < step.len() implies (pre + last).contains(#[trigger] step[m]) by {
            assert((pre + last)[pre.len() + m] == step[m]);
        }
    }
}

/// Clipping keeps every vertex that lies inside the edge, and for every edge of the
/// closed polygon whose ends lie on different sides, the closing edge from the last
/// vertex to the first included, the point where it crosses the clip edge.
pub proof fn lemma_clip_keeps<T>(input: Seq<T>, inside: Seq<bool>, crossings: Seq<T>, j: int)
    requires
        inside.len() == input.len(),
        crossings.len() == input.len(),
        0 <= j < input.len(),
    ensures
        inside[j] ==> clip_polygon(input, inside, crossings).contains(input[j]),
        inside[j] != inside[next_vertex(j, input.len() as int)] ==> clip_polygon(
            input,
            inside,
            crossings,
        ).contains(crossings[next_vertex(j, input.len() as int)]),
{
    let n = input.len();
    let k = next_vertex(j, n as int);
    lemma_clip_prefix_keeps(input, inside, crossings, n, j as nat);
    lemma_clip_prefix_keeps(input, inside, crossings, n, k as nat);
    let sj = clip_step(input, inside, crossings, j);
    let sk = clip_step(input, inside, crossings, k);
    if inside[j] {
        if sj.len() == 2 {
            assert(sj[1] == input[j]);
        } else {
            assert(sj[0] == input[j]);
        }
    }
    if inside[j] != inside[k] {
        let before = if k == 0 {
            n - 1
        } else {
            k - 1
        };
        assert(before == j);
        assert(sk[0] == crossings[k]);
    }
}

} // verus!
