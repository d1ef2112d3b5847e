//! The two lookup tables of a scene load: meshes by index, materials by name.
use vstd::prelude::*;

verus! {

/// Stands for a mesh that the renderer holds.
#[derive(Clone, Copy, Debug, PartialEq, Eq, Hash, Structural)]
pub struct MeshHandle {
    pub id: u64,
}

/// Stands for a material that the renderer holds.
#[derive(Clone, Copy, Debug, PartialEq, Eq, Hash, Structural)]
pub struct MaterialHandle {
    pub id: u64,
}

/// The meshes of a scene, by their position in the importer's mesh list.
#[derive(Clone, Debug)]
pub struct MeshTable {
    handles: Vec<MeshHandle>,
}

impl View for MeshTable {
    type V = Map<u32, MeshHandle>;

    closed spec fn view(&self) -> Map<u32, MeshHandle> {
        mesh_map(self.handles@)
    }
}

/// The table of a mesh list: position `i` maps to the `i`-th handle.
pub open spec fn mesh_map(handles: Seq<MeshHandle>) -> Map<u32, MeshHandle> {
    Map::new(|i: u32| (i as int) < handles.len(), |i: u32| handles[i as int])
}

impl MeshTable {
    /// The table of `handles`, which are in the importer's order: keys are
    /// dense and start at 0.
    pub fn from_handles(handles: Vec<MeshHandle>) -> (table: MeshTable)
        ensures
            table@ == mesh_map(handles@),
    {
        MeshTable { handles }
    }

    /// The handle of the mesh `index`, if the table holds it.
    pub fn get(&self, index: u32) -> (found: Option<MeshHandle>)
        ensures
            found == (if self@.contains_key(index) {
                Some(self@[index])
            } else {
                None
            }),
    {
        let i: usize = index as usize;
        if i < self.handles.len() {
            Some(self.handles[i])
        } else {
            None
        }
    }
}

/// One registration: a node name and the material for nodes of that name.
#[derive(Clone, Debug)]
pub struct MaterialEntry {
    pub name: String,
    pub handle: MaterialHandle,
}

/// The map that a sequence of registrations gives. Where a name is registered
/// more than once, the last registration holds.
pub open spec fn registered(entries: Seq<(Seq<char>, MaterialHandle)>) -> Map<
    Seq<char>,
    MaterialHandle,
>
    decreases entries.len(),
{
    if entries.len() == 0 {
        Map::empty()
    } else {
        registered(entries.drop_last()).insert(entries.last().0, entries.last().1)
    }
}

/// A registration as a pair of plain values.
pub open spec fn entry_pair(e: MaterialEntry) -> (Seq<char>, MaterialHandle) {
    (e.name@, e.handle)
}

/// The materials of a scene, by the name of the node that wears them.
#[derive(Clone, Debug)]
pub struct MaterialTable {
    entries: Vec<MaterialEntry>,
}

impl View for MaterialTable {
    type V = Map<Seq<char>, MaterialHandle>;

    closed spec fn view(&self) -> Map<Seq<char>, MaterialHandle> {
        registered(self.entries@.map_values(|e: MaterialEntry| entry_pair(e)))
    }
}

impl MaterialTable {
    /// The table without a registration.
    pub fn new() -> (table: MaterialTable)
        ensures
            table@ == Map::<Seq<char>, MaterialHandle>::empty(),
    {
        MaterialTable { entries: Vec::new() }
    }

    /// Registers `handle` under `name`. An earlier registration of the same
    /// name gives way.
    pub fn insert(&mut self, name: String, handle: MaterialHandle)
        ensures
            final(self)@ == old(self)@.insert(name@, handle),
    {
        let ghost before = self.entries@.map_values(|e: MaterialEntry| entry_pair(e));
        self.entries.push(MaterialEntry { name, handle });
        proof {
            let after = self.entries@.map_values(|e: MaterialEntry| entry_pair(e));
            assert(after.drop_last() =~= before);
            assert(after.last() == (name@, handle));
        }
    }

    /// The table of `entries`, registered in their order.
    pub fn from_entries(entries: Vec<MaterialEntry>) -> (table: MaterialTable)
        ensures
            table@ == registered(entries@.map_values(|e: MaterialEntry| entry_pair(e))),
    {
        MaterialTable { entries }
    }

    /// The material registered under `name`, if there is one.
    pub fn get(&self, name: &String) -> (found: Option<MaterialHandle>)
        ensures
            found == (if self@.contains_key(name@) {
                Some(self@[name@])
            } else {
                None
            }),
    {
        let ghost pairs = self.entries@.map_values(|e: MaterialEntry| entry_pair(e));
        let mut i: usize = self.entries.len();
        assert(pairs.take(i as int) =~= pairs);
        while i > 0
            invariant
                i <= self.entries.len(),
                pairs == self.entries@.map_values(|e: MaterialEntry| entry_pair(e)),
                registered(pairs).contains_key(name@) == registered(
                    pairs.take(i as int),
                ).contains_key(name@),
                registered(pairs).contains_key(name@) ==> registered(pairs)[name@] == registered(
                    pairs.take(i as int),
                )[name@],
            decreases i,
        {
            proof {
                let head = pairs.take(i as int);
                assert(head.drop_last() =~= pairs.take(i - 1));
                assert(head.last() == entry_pair(self.entries@[i - 1]));
                assert(registered(head) == registered(head.drop_last()).insert(
                    head.last().0,
                    head.last().1,
                ));
            }
            i = i - 1;
            if self.entries[i].name == *name {
                return Some(self.entries[i].handle);
            }
        }
        assert(pairs.take(0).len() == 0);
        None
    }
}

} // verus!
