use vstd::prelude::*;

verus! {

/// A triangle mesh: vertices, and vertex indices taken three at a time as faces.
pub struct Mesh<V> {
    pub vertices: Vec<V>,
    pub indices: Vec<u32>,
}

impl<V> Mesh<V> {
    /// The indices form whole faces, and each names a vertex of the mesh.
    pub open spec fn faces_valid(&self) -> bool {
        &&& self.indices@.len() % 3 == 0
        &&& forall|i: int|
            0 <= i < self.indices@.len() ==> #[trigger] self.indices@[i] < self.vertices@.len()
    }

    /// The vertex indices of each face, in order; `None` where the indices do not form
    /// whole faces or one names no vertex.
    pub fn face_indices(&self) -> (r: Option<Vec<(usize, usize, usize)>>)
        ensures
            r is Some <==> self.faces_valid(),
            r matches Some(f) ==> {
                &&& f@.len() == self.indices@.len() / 3
                &&& forall|k: int|
                    0 <= k < f@.len() ==> #[trigger] f@[k] == (
                        self.indices@[3 * k] as usize,
                        self.indices@[3 * k + 1] as usize,
                        self.indices@[3 * k + 2] as usize,
                    )
            },
    {
        let n = self.indices.len();
        let nv = self.vertices.len();
        let mut i: usize = 0;
        while i < n
            invariant
                n == self.indices@.len(),
                nv == self.vertices@.len(),
                i <= n,
                forall|j: int| 0 <= j < i ==> #[trigger] self.indices@[j] < nv,
            decreases n - i,
        {
            if self.indices[i] as usize >= nv {
                return None;
            }
            i = i + 1;
        }
        if n % 3 != 0 {
            return None;
        }
        let mut faces: Vec<(usize, usize, usize)> = Vec::new();
        let mut k: usize = 0;
        while k < n / 3
            invariant
                n == self.indices@.len(),
                n % 3 == 0,
                k <= n / 3,
                faces@.len() == k,
                forall|j: int|
                    0 <= j < k ==> #[trigger] faces@[j] == (
                        self.indices@[3 * j] as usize,
                        self.indices@[3 * j + 1] as usize,
                        self.indices@[3 * j + 2] as usize,
                    ),
            decreases n / 3 - k,
        {
            let a = self.indices[3 * k] as usize;
            let b = self.indices[3 * k + 1] as usize;
            let c = self.indices[3 * k + 2] as usize;
            faces.push((a, b, c));
            k = k + 1;
        }
        Some(faces)
    }
}

/// A list of meshes; a mesh's id is its position in registration order.
pub struct MeshRegistry<M> {
    registry: Vec<M>,
}

impl<M> MeshRegistry<M> {
    /// The registered meshes, by id.
    pub closed spec fn meshes(&self) -> Seq<M> {
        self.registry@
    }

    pub fn new() -> (r: Self)
        ensures
            r.meshes() == Seq::<M>::empty(),
    {
        MeshRegistry { registry: Vec::new() }
    }

    /// Adds a mesh and returns its id, the number of meshes registered before it.
    pub fn register_mesh(&mut self, mesh: M) -> (id: usize)
        ensures
            final(self).meshes() == old(self).meshes().push(mesh),
            id == old(self).meshes().len(),
    {
        self.registry.push(mesh);
        self.registry.len() - 1
    }

    /// The mesh with the given id, if there is one.
    pub fn get_mesh(&self, id: usize) -> (r: Option<&M>)
        ensures
            r is Some <==> id < self.meshes().len(),
            r matches Some(m) ==> *m == self.meshes()[id as int],
    {
        match id >= self.registry.len() {
            true => None,
            false => Some(&self.registry[id]),
        }
    }
}

/// Registration hands out ids in order: the mesh just registered is found under the
/// returned id, and every earlier id still finds its mesh.
pub proof fn lemma_register_then_get<M>(before: Seq<M>, after: Seq<M>, mesh: M, id: int)
    requires
        after == before.push(mesh),
        id == before.len(),
    ensures
        after[id] == mesh,
        after.len() == id + 1,
        forall|j: int| 0 <= j < before.len() ==> #[trigger] after[j] == before[j],
{
}

/// The meshes held after registering each of `ms` in turn into a new registry.
pub open spec fn after_registering<M>(ms: Seq<M>) -> Seq<M>
    decreases ms.len(),
{
    if ms.len() == 0 {
        Seq::empty()
    } else {
        after_registering(ms.drop_last()).push(ms.last())
    }
}

/// Registering meshes one by one into a new registry: the registry then holds exactly
/// those meshes in that order, and the `i`-th registration, made when `i` meshes were
/// held, returns id `i`.
pub proof fn lemma_registry_ids<M>(ms: Seq<M>)
    ensures
        after_registering(ms) == ms,
        forall|i: int| 0 <= i <= ms.len() ==> #[trigger] after_registering(ms.take(i)).len() == i,
    decreases ms.len(),
{
    if ms.len() > 0 {
        lemma_registry_ids(ms.drop_last());
        assert(ms.drop_last().push(ms.last()) =~= ms);
    }
    assert forall|i: int| 0 <= i <= ms.len() implies #[trigger] after_registering(ms.take(i)).len() == i by {
        lemma_registry_len(ms.take(i));
    }
}

proof fn lemma_registry_len<M>(ms: Seq<M>)
    ensures
        after_registering(ms).len() == ms.len(),
    decreases ms.len(),
{
    if ms.len() > 0 {
        lemma_registry_len(ms.drop_last());
    }
}

} // verus!
