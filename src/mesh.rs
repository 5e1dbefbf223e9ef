use vstd::prelude::*;

verus! {

/// A polygon mesh over vertices of type `V`: triangles as index triples,
/// and polygonal faces as lists of vertex indices.
pub struct Mesh<V> {
    pub verts: Vec<V>,
    pub triangles: Vec<usize>,
    pub leaf_faces: Vec<Vec<usize>>,
}

pub open spec fn faces_view(f: Seq<Vec<usize>>) -> Seq<Seq<usize>> {
    f.map_values(|v: Vec<usize>| v@)
}

/// A face with every index moved by `offset`.
pub open spec fn shifted(f: Seq<usize>, offset: int) -> Seq<usize> {
    f.map_values(|x: usize| (x + offset) as usize)
}

/// Every index of every face stays in range once moved by `offset`.
pub open spec fn shift_fits(faces: Seq<Seq<usize>>, offset: int) -> bool {
    forall|a: int, b: int| 0 <= a < faces.len() && 0 <= b < faces[a].len() ==> faces[a][b] + offset <= usize::MAX
}

impl<V: Copy> Mesh<V> {
    pub fn new() -> (r: Mesh<V>)
        ensures
            r.verts@.len() == 0,
            r.triangles@.len() == 0,
            r.leaf_faces@.len() == 0,
    {
        Mesh { verts: Vec::new(), triangles: Vec::new(), leaf_faces: Vec::new() }
    }

    /// Adds a vertex; returns its index.
    pub fn add_vert(&mut self, p: &V) -> (r: usize)
        ensures
            r == old(self).verts@.len(),
            final(self).verts@ == old(self).verts@.push(*p),
            final(self).triangles == old(self).triangles,
            final(self).leaf_faces == old(self).leaf_faces,
    {
        let len = self.verts.len();
        self.verts.push(*p);
        len
    }

    /// Adds the triangle `a b c`.
    pub fn add_face(&mut self, a: usize, b: usize, c: usize)
        ensures
            final(self).triangles@ == old(self).triangles@ + seq![a, b, c],
            final(self).verts == old(self).verts,
            final(self).leaf_faces == old(self).leaf_faces,
    {
        self.triangles.push(a);
        self.triangles.push(b);
        self.triangles.push(c);
        assert(self.triangles@ =~= old(self).triangles@ + seq![a, b, c]);
    }

    /// Adds a polygonal face.
    pub fn add_poly(&mut self, f: Vec<usize>)
        ensures
            faces_view(final(self).leaf_faces@) == faces_view(old(self).leaf_faces@).push(f@),
            final(self).verts == old(self).verts,
            final(self).triangles == old(self).triangles,
    {
        self.leaf_faces.push(f);
        assert(faces_view(self.leaf_faces@) =~= faces_view(old(self).leaf_faces@).push(f@));
    }

    /// Appends the vertices of `other`, and its polygonal faces with their
    /// indices moved past the vertices already here.
    pub fn merge(&mut self, other: &Mesh<V>)
        requires
            shift_fits(faces_view(other.leaf_faces@), old(self).verts@.len() as int),
        ensures
            final(self).verts@ == old(self).verts@ + other.verts@,
            final(self).triangles == old(self).triangles,
            faces_view(final(self).leaf_faces@) == faces_view(old(self).leaf_faces@)
                + faces_view(other.leaf_faces@).map_values(|f: Seq<usize>| shifted(f, old(self).verts@.len() as int)),
    {
        let offset = self.verts.len();
        let mut i: usize = 0;
        while i < other.verts.len()
            invariant
                i <= other.verts@.len(),
                offset == old(self).verts@.len(),
                self.verts@ == old(self).verts@ + other.verts@.take(i as int),
                self.triangles == old(self).triangles,
                self.leaf_faces == old(self).leaf_faces,
            decreases other.verts.len() - i,
        {
            self.verts.push(other.verts[i]);
            i += 1;
            assert(self.verts@ =~= old(self).verts@ + other.verts@.take(i as int));
        }
        assert(other.verts@.take(i as int) =~= other.verts@);
        let ghost target = faces_view(other.leaf_faces@).map_values(|f: Seq<usize>| shifted(f, offset as int));
        let mut k: usize = 0;
        while k < other.leaf_faces.len()
            invariant
                k <= other.leaf_faces@.len(),
                offset == old(self).verts@.len(),
                shift_fits(faces_view(other.leaf_faces@), offset as int),
                self.verts@ == old(self).verts@ + other.verts@,
                self.triangles == old(self).triangles,
                target == faces_view(other.leaf_faces@).map_values(|f: Seq<usize>| shifted(f, offset as int)),
                faces_view(self.leaf_faces@) == faces_view(old(self).leaf_faces@) + target.take(k as int),
            decreases other.leaf_faces.len() - k,
        {
            let f = &other.leaf_faces[k];
            let mut g: Vec<usize> = Vec::new();
            let mut j: usize = 0;
            while j < f.len()
                invariant
                    j <= f@.len(),
                    f == other.leaf_faces@[k as int],
                    k < other.leaf_faces@.len(),
                    shift_fits(faces_view(other.leaf_faces@), offset as int),
                    g@ == shifted(f@, offset as int).take(j as int),
                decreases f.len() - j,
            {
                assert(faces_view(other.leaf_faces@)[k as int] == f@);
                assert(f@[j as int] + offset <= usize::MAX);
                g.push(f[j] + offset);
                j += 1;
                assert(g@ =~= shifted(f@, offset as int).take(j as int));
            }
            assert(shifted(f@, offset as int).take(j as int) =~= shifted(f@, offset as int));
            let ghost before = faces_view(self.leaf_faces@);
            self.leaf_faces.push(g);
            assert(faces_view(self.leaf_faces@) =~= before.push(g@));
            k += 1;
            assert(faces_view(self.leaf_faces@) =~= faces_view(old(self).leaf_faces@) + target.take(k as int));
        }
        assert(target.take(k as int) =~= target);
    }

    pub fn get_verts(&self) -> (r: &Vec<V>)
        ensures
            r == &self.verts,
    {
        &self.verts
    }

    pub fn get_triangles(&self) -> (r: &Vec<usize>)
        ensures
            r == &self.triangles,
    {
        &self.triangles
    }

    pub fn get_leaf_faces(&self) -> (r: &Vec<Vec<usize>>)
        ensures
            r == &self.leaf_faces,
    {
        &self.leaf_faces
    }

    pub fn set_verts(&mut self, verts: Vec<V>)
        ensures
            final(self).verts == verts,
            final(self).triangles == old(self).triangles,
            final(self).leaf_faces == old(self).leaf_faces,
    {
        self.verts = verts;
    }

    pub fn set_triangles(&mut self, triangles: Vec<usize>)
        ensures
            final(self).triangles == triangles,
            final(self).verts == old(self).verts,
            final(self).leaf_faces == old(self).leaf_faces,
    {
        self.triangles = triangles;
    }

    pub fn set_leaf_faces(&mut self, leaf_faces: Vec<Vec<usize>>)
        ensures
            final(self).leaf_faces == leaf_faces,
            final(self).verts == old(self).verts,
            final(self).triangles == old(self).triangles,
    {
        self.leaf_faces = leaf_faces;
    }
}

} // verus!
