use vstd::prelude::*;

verus! {

/// The six indices of quad `q` of a UV sphere with `slices` slices: the quad between
/// stacks `q / slices` and `q / slices + 1` and slices `q % slices` and `q % slices + 1`,
/// as two triangles over a grid of `slices + 1` vertices per stack.
pub open spec fn sphere_quad(slices: int, q: int) -> Seq<u32> {
    let s = q / slices;
    let sl = q % slices;
    let cur = s * (slices + 1) + sl;
    let next = cur + slices + 1;
    seq![cur as u32, next as u32, (cur + 1) as u32, next as u32, (next + 1) as u32, (cur + 1) as u32]
}

/// The indices of the first `n` quads of a UV sphere.
pub open spec fn sphere_quads(slices: int, n: int) -> Seq<u32>
    decreases n,
{
    if n <= 0 {
        Seq::empty()
    } else {
        sphere_quads(slices, n - 1) + sphere_quad(slices, n - 1)
    }
}

/// Triangle indices of a UV sphere with `stacks`×`slices` quads, stack by stack.
pub fn sphere_indices(stacks: u32, slices: u32) -> (v: Vec<u32>)
    requires
        (stacks + 1) * (slices + 1) <= u32::MAX,
    ensures
        v@ == sphere_quads(slices as int, stacks * slices),
{
    let mut v: Vec<u32> = Vec::new();
    let mut s: u32 = 0;
    proof {
        assert(0 * (slices as int) == 0);
    }
    while s < stacks
        invariant
            s <= stacks,
            (stacks + 1) * (slices + 1) <= u32::MAX,
            v@ == sphere_quads(slices as int, s * slices),
        decreases stacks - s,
    {
        let mut sl: u32 = 0;
        while sl < slices
            invariant
                s < stacks,
                sl <= slices,
                (stacks + 1) * (slices + 1) <= u32::MAX,
                v@ == sphere_quads(slices as int, s * slices + sl),
            decreases slices - sl,
        {
            proof {
                assert((s as int + 2) * (slices as int + 1) <= (stacks as int + 1) * (slices as int + 1)) by (nonlinear_arith)
                    requires s < stacks;
                assert((s as int + 2) * (slices as int + 1) == s * (slices as int + 1) + 2 * (slices as int + 1)) by (nonlinear_arith);
                assert(0 <= s * (slices as int + 1)) by (nonlinear_arith);
                let q = s * slices + sl;
                vstd::arithmetic::div_mod::lemma_fundamental_div_mod_converse(q, slices as int, s as int, sl as int);
            }
            let cur = s * (slices + 1) + sl;
            let next = cur + slices + 1;
            let ghost before = v@;
            v.push(cur);
            v.push(next);
            v.push(cur + 1);
            v.push(next);
            v.push(next + 1);
            v.push(cur + 1);
            proof {
                let q = s * slices + sl;
                assert(v@ =~= before + sphere_quad(slices as int, q as int));
                assert(s * slices + sl + 1 == q + 1);
            }
            sl = sl + 1;
        }
        proof {
            assert(s * slices + slices == (s + 1) * slices) by (nonlinear_arith);
        }
        s = s + 1;
    }
    v
}

/// The six indices of face `f` of a mesh made of four-vertex faces: two triangles over
/// vertices `4f .. 4f + 3`.
pub open spec fn face_quad(f: int) -> Seq<u32> {
    let b = 4 * f;
    seq![b as u32, (b + 1) as u32, (b + 2) as u32, b as u32, (b + 2) as u32, (b + 3) as u32]
}

/// The indices of the first `n` faces.
pub open spec fn face_quads(n: int) -> Seq<u32>
    decreases n,
{
    if n <= 0 { Seq::empty() } else { face_quads(n - 1) + face_quad(n - 1) }
}

/// Triangle indices for `faces` four-vertex faces stored one after another (a cube has six).
pub fn face_indices(faces: u32) -> (v: Vec<u32>)
    requires
        4 * faces <= u32::MAX,
    ensures
        v@ == face_quads(faces as int),
{
    let mut v: Vec<u32> = Vec::new();
    let mut f: u32 = 0;
    while f < faces
        invariant
            f <= faces,
            4 * faces <= u32::MAX,
            v@ == face_quads(f as int),
        decreases faces - f,
    {
        let b = f * 4;
        let ghost before = v@;
        v.push(b);
        v.push(b + 1);
        v.push(b + 2);
        v.push(b);
        v.push(b + 2);
        v.push(b + 3);
        proof {
            assert(v@ =~= before + face_quad(f as int));
        }
        f = f + 1;
    }
    v
}

/// The six indices of a quad whose four vertices start at `base`.
pub fn quad_indices(base: u32) -> (q: [u32; 6])
    requires
        base + 3 <= u32::MAX,
    ensures
        q@ == seq![base, (base + 1) as u32, (base + 2) as u32, base, (base + 2) as u32, (base + 3) as u32],
{
    let q = [base, base + 1, base + 2, base, base + 2, base + 3];
    assert(q@ =~= seq![base, (base + 1) as u32, (base + 2) as u32, base, (base + 2) as u32, (base + 3) as u32]);
    q
}

/// The indices of the first `n` triangles of a fan around vertex `base` whose rim
/// vertices start at `base + 1`.
pub open spec fn fan(base: int, n: int) -> Seq<u32>
    decreases n,
{
    if n <= 0 {
        Seq::empty()
    } else {
        fan(base, n - 1) + seq![base as u32, (base + n) as u32, (base + n + 1) as u32]
    }
}

/// Triangle indices of a `segs`-segment fan (a filled circle) around vertex `base`.
pub fn fan_indices(base: u32, segs: u32) -> (v: Vec<u32>)
    requires
        base + segs + 1 <= u32::MAX,
    ensures
        v@ == fan(base as int, segs as int),
{
    let mut v: Vec<u32> = Vec::new();
    let mut i: u32 = 0;
    while i < segs
        invariant
            i <= segs,
            base + segs + 1 <= u32::MAX,
            v@ == fan(base as int, i as int),
        decreases segs - i,
    {
        let ghost before = v@;
        v.push(base);
        v.push(base + 1 + i);
        v.push(base + 2 + i);
        proof {
            assert(v@ =~= before + seq![base as u32, (base + i + 1) as u32, (base + i + 2) as u32]);
        }
        i = i + 1;
    }
    v
}

// ─── Laws ─────────────────────────────────────────────────────────────────────

proof fn lemma_face_at(n: int, i: int)
    requires
        0 <= n,
        0 <= i < 6 * n,
    ensures
        face_quads(n).len() == 6 * n,
        face_quads(n)[i] == face_quad(i / 6)[i % 6],
    decreases n,
{
    lemma_face_len(n - 1);
    if i < 6 * (n - 1) {
        lemma_face_at(n - 1, i);
    }
}

proof fn lemma_face_len(n: int)
    requires
        0 <= n,
    ensures
        face_quads(n).len() == 6 * n,
    decreases n,
{
    if n > 0 {
        lemma_face_len(n - 1);
    }
}

/// Face `f` of a four-vertex-face mesh is drawn as the two triangles (4f, 4f+1, 4f+2) and
/// (4f, 4f+2, 4f+3): six indices per face, each within the face's own four vertices,
/// faces in order.
pub proof fn law_face_indices(n: int)
    requires
        0 <= n,
        4 * n <= u32::MAX,
    ensures
        face_quads(n).len() == 6 * n,
        forall|f: int| 0 <= f < n ==> {
            &&& #[trigger] face_quads(n)[6 * f] == 4 * f
            &&& face_quads(n)[6 * f + 1] == 4 * f + 1
            &&& face_quads(n)[6 * f + 2] == 4 * f + 2
            &&& face_quads(n)[6 * f + 3] == 4 * f
            &&& face_quads(n)[6 * f + 4] == 4 * f + 2
            &&& face_quads(n)[6 * f + 5] == 4 * f + 3
        },
{
    lemma_face_len(n);
    assert forall|f: int| 0 <= f < n implies {
        &&& #[trigger] face_quads(n)[6 * f] == 4 * f
        &&& face_quads(n)[6 * f + 1] == 4 * f + 1
        &&& face_quads(n)[6 * f + 2] == 4 * f + 2
        &&& face_quads(n)[6 * f + 3] == 4 * f
        &&& face_quads(n)[6 * f + 4] == 4 * f + 2
        &&& face_quads(n)[6 * f + 5] == 4 * f + 3
    } by {
        lemma_face_at(n, 6 * f);
        lemma_face_at(n, 6 * f + 1);
        lemma_face_at(n, 6 * f + 2);
        lemma_face_at(n, 6 * f + 3);
        lemma_face_at(n, 6 * f + 4);
        lemma_face_at(n, 6 * f + 5);
        assert(face_quads(n)[6 * f] == face_quad(f)[0]);
        assert(face_quads(n)[6 * f + 1] == face_quad(f)[1]);
        assert(face_quads(n)[6 * f + 2] == face_quad(f)[2]);
        assert(face_quads(n)[6 * f + 3] == face_quad(f)[3]);
        assert(face_quads(n)[6 * f + 4] == face_quad(f)[4]);
        assert(face_quads(n)[6 * f + 5] == face_quad(f)[5]);
    }
}

proof fn lemma_fan_len(base: int, n: int)
    requires
        0 <= n,
    ensures
        fan(base, n).len() == 3 * n,
    decreases n,
{
    if n > 0 {
        lemma_fan_len(base, n - 1);
    }
}

proof fn lemma_fan_at(base: int, n: int, t: int)
    requires
        0 <= t < n,
    ensures
        fan(base, n)[3 * t] == base as u32,
        fan(base, n)[3 * t + 1] == (base + t + 1) as u32,
        fan(base, n)[3 * t + 2] == (base + t + 2) as u32,
    decreases n,
{
    lemma_fan_len(base, n - 1);
    if t < n - 1 {
        lemma_fan_at(base, n - 1, t);
    }
}

/// A fan of `n` triangles around vertex `base` draws triangle `t` as (base, base+t+1,
/// base+t+2): every triangle has the centre, and each shares its last rim vertex with the
/// next one, so the rim is closed without gaps.
pub proof fn law_fan_indices(base: int, n: int)
    requires
        0 <= base,
        0 <= n,
        base + n + 1 <= u32::MAX,
    ensures
        fan(base, n).len() == 3 * n,
        forall|t: int| 0 <= t < n ==> #[trigger] fan(base, n)[3 * t] == base
            && fan(base, n)[3 * t + 1] == base + t + 1
            && fan(base, n)[3 * t + 2] == base + t + 2,
        forall|t: int| 0 <= t < n - 1 ==> #[trigger] fan(base, n)[3 * t + 2] == fan(base, n)[3 * (t + 1) + 1],
{
    lemma_fan_len(base, n);
    assert forall|t: int| 0 <= t < n implies #[trigger] fan(base, n)[3 * t] == base
        && fan(base, n)[3 * t + 1] == base + t + 1
        && fan(base, n)[3 * t + 2] == base + t + 2 by {
        lemma_fan_at(base, n, t);
    }
    assert forall|t: int| 0 <= t < n - 1 implies #[trigger] fan(base, n)[3 * t + 2] == fan(base, n)[3 * (t + 1) + 1] by {
        lemma_fan_at(base, n, t);
        lemma_fan_at(base, n, t + 1);
    }
}

proof fn lemma_sphere_len(slices: int, n: int)
    requires
        0 <= n,
    ensures
        sphere_quads(slices, n).len() == 6 * n,
    decreases n,
{
    if n > 0 {
        lemma_sphere_len(slices, n - 1);
    }
}

proof fn lemma_sphere_at(slices: int, n: int, q: int, k: int)
    requires
        0 <= q < n,
        0 <= k < 6,
    ensures
        sphere_quads(slices, n)[6 * q + k] == sphere_quad(slices, q)[k],
    decreases n,
{
    lemma_sphere_len(slices, n - 1);
    if q < n - 1 {
        lemma_sphere_at(slices, n - 1, q, k);
    }
}

/// A UV sphere of `stacks`×`slices` quads on a grid of `slices + 1` vertices per stack:
/// the quad at stack `s`, slice `sl` is drawn as the triangles (cur, below, cur+1) and
/// (below, below+1, cur+1), where cur = s·(slices+1) + sl and below = cur + slices + 1 is
/// the vertex under it; every index names a vertex of the grid.
pub proof fn law_sphere_indices(stacks: int, slices: int)
    requires
        0 <= stacks,
        0 <= slices,
        (stacks + 1) * (slices + 1) <= u32::MAX,
    ensures
        sphere_quads(slices, stacks * slices).len() == 6 * (stacks * slices),
        forall|s: int, sl: int, k: int| 0 <= s < stacks && 0 <= sl < slices && 0 <= k < 6
            ==> #[trigger] sphere_quads(slices, stacks * slices)[6 * (s * slices + sl) + k] < (stacks + 1) * (slices + 1),
        forall|s: int, sl: int| #![trigger sphere_quads(slices, stacks * slices)[6 * (s * slices + sl)]]
            0 <= s < stacks && 0 <= sl < slices ==> {
            let v = sphere_quads(slices, stacks * slices);
            let q = s * slices + sl;
            let cur = s * (slices + 1) + sl;
            &&& v[6 * q] == cur
            &&& v[6 * q + 1] == cur + slices + 1
            &&& v[6 * q + 2] == cur + 1
            &&& v[6 * q + 3] == cur + slices + 1
            &&& v[6 * q + 4] == cur + slices + 2
            &&& v[6 * q + 5] == cur + 1
        },
{
    assert(0 <= stacks * slices) by (nonlinear_arith)
        requires 0 <= stacks, 0 <= slices;
    lemma_sphere_len(slices, stacks * slices);
    assert forall|s: int, sl: int, k: int| 0 <= s < stacks && 0 <= sl < slices && 0 <= k < 6
        implies #[trigger] sphere_quads(slices, stacks * slices)[6 * (s * slices + sl) + k] < (stacks + 1) * (slices + 1) by {
        lemma_sphere_quad_at(stacks, slices, s, sl);
    }
    assert forall|s: int, sl: int| #![trigger sphere_quads(slices, stacks * slices)[6 * (s * slices + sl)]]
        0 <= s < stacks && 0 <= sl < slices implies {
        let v = sphere_quads(slices, stacks * slices);
        let q = s * slices + sl;
        let cur = s * (slices + 1) + sl;
        &&& v[6 * q] == cur
        &&& v[6 * q + 1] == cur + slices + 1
        &&& v[6 * q + 2] == cur + 1
        &&& v[6 * q + 3] == cur + slices + 1
        &&& v[6 * q + 4] == cur + slices + 2
        &&& v[6 * q + 5] == cur + 1
    } by {
        lemma_sphere_quad_at(stacks, slices, s, sl);
    }
}

proof fn lemma_sphere_quad_at(stacks: int, slices: int, s: int, sl: int)
    requires
        0 <= s < stacks,
        0 <= sl < slices,
        (stacks + 1) * (slices + 1) <= u32::MAX,
    ensures
        ({
            let v = sphere_quads(slices, stacks * slices);
            let q = s * slices + sl;
            let cur = s * (slices + 1) + sl;
            &&& v[6 * q] == cur
            &&& v[6 * q + 1] == cur + slices + 1
            &&& v[6 * q + 2] == cur + 1
            &&& v[6 * q + 3] == cur + slices + 1
            &&& v[6 * q + 4] == cur + slices + 2
            &&& v[6 * q + 5] == cur + 1
            &&& cur + slices + 2 < (stacks + 1) * (slices + 1)
            &&& forall|k: int| 0 <= k < 6 ==> #[trigger] v[6 * q + k] < (stacks + 1) * (slices + 1)
        }),
{
    let q = s * slices + sl;
    let cur = s * (slices + 1) + sl;
    assert(0 <= q < stacks * slices) by (nonlinear_arith)
        requires 0 <= s < stacks, 0 <= sl < slices, q == s * slices + sl;
    vstd::arithmetic::div_mod::lemma_fundamental_div_mod_converse(q, slices, s, sl);
    assert(cur + slices + 2 < (stacks + 1) * (slices + 1)) by (nonlinear_arith)
        requires 0 <= s < stacks, 0 <= sl < slices, cur == s * (slices + 1) + sl;
    assert(0 <= cur) by (nonlinear_arith)
        requires 0 <= s, 0 <= sl, 0 <= slices, cur == s * (slices + 1) + sl;
    lemma_sphere_at(slices, stacks * slices, q, 0);
    lemma_sphere_at(slices, stacks * slices, q, 1);
    lemma_sphere_at(slices, stacks * slices, q, 2);
    lemma_sphere_at(slices, stacks * slices, q, 3);
    lemma_sphere_at(slices, stacks * slices, q, 4);
    lemma_sphere_at(slices, stacks * slices, q, 5);
}

} // verus!
