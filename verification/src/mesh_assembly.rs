use vstd::prelude::*;

verus! {

/// The vertex attributes of one triangle: positions `P`, normals `N`, texture
/// coordinates `U` and tangents `T` of its three corners.
#[derive(Clone, Copy, Debug)]
pub struct TriangleAttributes<P, N, U, T> {
    pub positions: [P; 3],
    pub normals: [N; 3],
    pub uvs: [U; 3],
    pub tangents: [T; 3],
}

/// `s[i]` when there is one, else `default`.
pub open spec fn get_or<A>(s: Seq<A>, i: int, default: A) -> A {
    if 0 <= i < s.len() {
        s[i]
    } else {
        default
    }
}

/// The corners of triangle `t` of an indexed mesh are the vertices that
/// indices `3t`, `3t + 1` and `3t + 2` name; a vertex without texture
/// coordinates or tangent gets the defaults.
pub open spec fn triangle_at<P, N, U, T>(
    indices: Seq<usize>,
    positions: Seq<P>,
    normals: Seq<N>,
    uvs: Seq<U>,
    tangents: Seq<T>,
    uv_default: U,
    tangent_default: T,
    t: int,
    a: TriangleAttributes<P, N, U, T>,
) -> bool {
    forall|c: int|
        0 <= c < 3 ==> {
            let v = indices[3 * t + c] as int;
            &&& #[trigger] a.positions@[c] == positions[v]
            &&& a.normals@[c] == normals[v]
            &&& a.uvs@[c] == get_or(uvs, v, uv_default)
            &&& a.tangents@[c] == get_or(tangents, v, tangent_default)
        }
}

/// `s[i]` when there is one, else `default`.
fn get_or_default<A: Copy>(s: &[A], i: usize, default: A) -> (r: A)
    ensures
        r == get_or(s@, i as int, default),
{
    if i < s.len() {
        s[i]
    } else {
        default
    }
}

/// The triangles of an indexed mesh: every three indices name the corners
/// of one triangle, whose attributes are gathered from the vertex arrays.
/// Positions and normals are required of every vertex an index names;
/// texture coordinates and tangents may be missing.
pub fn assemble_triangles<P: Copy, N: Copy, U: Copy, T: Copy>(
    indices: &[usize],
    positions: &[P],
    normals: &[N],
    uvs: &[U],
    tangents: &[T],
    uv_default: U,
    tangent_default: T,
) -> (r: Vec<TriangleAttributes<P, N, U, T>>)
    requires
        indices@.len() % 3 == 0,
        forall|k: int|
            0 <= k < indices@.len() ==> #[trigger] indices@[k] < positions@.len() && indices@[k]
                < normals@.len(),
    ensures
        r@.len() == indices@.len() / 3,
        forall|t: int|
            0 <= t < r@.len() ==> triangle_at(
                indices@,
                positions@,
                normals@,
                uvs@,
                tangents@,
                uv_default,
                tangent_default,
                t,
                #[trigger] r@[t],
            ),
{
    let n = indices.len() / 3;
    let mut r: Vec<TriangleAttributes<P, N, U, T>> = Vec::new();
    let mut t: usize = 0;
    while t < n
        invariant
            n == indices@.len() / 3,
            indices@.len() % 3 == 0,
            forall|k: int|
                0 <= k < indices@.len() ==> #[trigger] indices@[k] < positions@.len() && indices@[k]
                    < normals@.len(),
            t <= n,
            r@.len() == t,
            forall|s: int|
                0 <= s < t ==> triangle_at(
                    indices@,
                    positions@,
                    normals@,
                    uvs@,
                    tangents@,
                    uv_default,
                    tangent_default,
                    s,
                    #[trigger] r@[s],
                ),
        decreases n - t,
    {
        assert(3 * t + 2 < indices@.len()) by (nonlinear_arith)
            requires
                t < n,
                n == indices@.len() / 3,
        ;
        assert(indices@.len() == indices.len());
        let v0 = indices[3 * t];
        let v1 = indices[3 * t + 1];
        let v2 = indices[3 * t + 2];
        let a = TriangleAttributes {
            positions: [positions[v0], positions[v1], positions[v2]],
            normals: [normals[v0], normals[v1], normals[v2]],
            uvs: [
                get_or_default(uvs, v0, uv_default),
                get_or_default(uvs, v1, uv_default),
                get_or_default(uvs, v2, uv_default),
            ],
            tangents: [
                get_or_default(tangents, v0, tangent_default),
                get_or_default(tangents, v1, tangent_default),
                get_or_default(tangents, v2, tangent_default),
            ],
        };
        proof {
            assert forall|c: int| 0 <= c < 3 implies {
                let v = indices@[3 * t + c] as int;
                &&& #[trigger] a.positions@[c] == positions@[v]
                &&& a.normals@[c] == normals@[v]
                &&& a.uvs@[c] == get_or(uvs@, v, uv_default)
                &&& a.tangents@[c] == get_or(tangents@, v, tangent_default)
            } by {
                if c == 0 {
                } else if c == 1 {
                } else {
                }
            }
        }
        r.push(a);
        t += 1;
    }
    r
}

} // verus!
