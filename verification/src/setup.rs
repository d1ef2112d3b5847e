//! The order of scene setup, and what ends it early.
//!
//! Setup asks its surroundings for one piece of work at a time: compile the
//! shader that all materials share, load the material of each source in
//! order, import the asset. After each it is told whether the work
//! succeeded. The first failure ends setup: nothing is retried and nothing
//! half-made is handed on.
use vstd::prelude::*;
use crate::error::{Error, Failure};
use crate::tables::{registered, MaterialHandle, MaterialTable};

verus! {

/// Where the material for nodes of one name comes from.
#[derive(Clone, Debug)]
pub struct MaterialSource {
    pub name: String,
    /// The path of the image that the material shows.
    pub path: String,
}

/// The work that setup asks for next.
#[derive(Clone, Copy, Debug, PartialEq, Eq, Structural)]
pub enum Stage {
    /// Compile the shared shader.
    Shader,
    /// Load the image of the source `index` and make its material.
    Material { index: usize },
    /// Read and parse the asset.
    Import,
    /// Nothing more: the tables can be used to deploy.
    Ready,
}

/// The stage after `stage` has succeeded, with `count` sources.
pub open spec fn following(stage: Stage, count: nat) -> Stage {
    match stage {
        Stage::Shader => if count > 0 {
            Stage::Material { index: 0 }
        } else {
            Stage::Import
        },
        Stage::Material { index } => if index + 1 < count {
            Stage::Material { index: (index + 1) as usize }
        } else {
            Stage::Import
        },
        Stage::Import => Stage::Ready,
        Stage::Ready => Stage::Ready,
    }
}

/// What the failure of `stage` means. At `Ready` there is nothing to fail.
pub open spec fn failure_of(stage: Stage, sources: Seq<MaterialSource>) -> Option<Failure> {
    match stage {
        Stage::Shader => Some(Failure::ShaderCompile),
        Stage::Material { index } => Some(
            Failure::ResourceLoad { path: sources[index as int].path@ },
        ),
        Stage::Import => Some(Failure::ImportParse),
        Stage::Ready => None,
    }
}

/// The number of sources whose material is made when `stage` is reached.
pub open spec fn loaded(stage: Stage, count: nat) -> nat {
    match stage {
        Stage::Shader => 0,
        Stage::Material { index } => index as nat,
        Stage::Import => count,
        Stage::Ready => count,
    }
}

/// The registrations of the first `n` sources: each name with the handle
/// that counts its source.
pub open spec fn source_pairs(sources: Seq<MaterialSource>, n: nat) -> Seq<
    (Seq<char>, MaterialHandle),
> {
    Seq::new(n, |i: int| (sources[i].name@, MaterialHandle { id: i as u64 }))
}

/// A setup under way.
pub struct Setup {
    sources: Vec<MaterialSource>,
    stage: Stage,
    materials: MaterialTable,
}

impl Setup {
    /// The sources, as given.
    pub closed spec fn sources(&self) -> Seq<MaterialSource> {
        self.sources@
    }

    /// The work asked for next.
    pub closed spec fn stage(&self) -> Stage {
        self.stage
    }

    /// The materials made so far, by name.
    pub closed spec fn materials(&self) -> Map<Seq<char>, MaterialHandle> {
        self.materials@
    }

    /// The invariant: the stage names a source that exists, and the table
    /// holds the sources before it, registered in order.
    pub open spec fn wf(&self) -> bool {
        &&& match self.stage() {
            Stage::Material { index } => index < self.sources().len(),
            _ => true,
        }
        &&& self.materials() == registered(
            source_pairs(self.sources(), loaded(self.stage(), self.sources().len())),
        )
    }

    /// A setup that has done nothing yet.
    pub fn new(sources: Vec<MaterialSource>) -> (setup: Setup)
        ensures
            setup.wf(),
            setup.sources() == sources@,
            setup.stage() == Stage::Shader,
    {
        assert(source_pairs(sources@, 0) =~= Seq::empty());
        Setup { sources, stage: Stage::Shader, materials: MaterialTable::new() }
    }

    /// The work to do next.
    pub fn current(&self) -> (stage: Stage)
        ensures
            stage == self.stage(),
    {
        self.stage
    }

    /// The source to load at the stage `Material { index }`.
    pub fn source(&self, index: usize) -> (found: Option<&MaterialSource>)
        ensures
            found == (if index < self.sources().len() {
                Some(&self.sources()[index as int])
            } else {
                None
            }),
    {
        if index < self.sources.len() {
            Some(&self.sources[index])
        } else {
            None
        }
    }

    /// Takes note of how the current stage went. After a success the next
    /// stage is due, and a loaded material is registered under the name of
    /// its source, with the position of the source as its handle. A failure
    /// ends the setup with the error of the stage. At `Ready` nothing is
    /// left that could fail, and nothing changes.
    pub fn advance(self, succeeded: bool) -> (result: Result<Setup, Error>)
        requires
            self.wf(),
        ensures
            match result {
                Ok(next) => {
                    &&& succeeded || self.stage() == Stage::Ready
                    &&& next.wf()
                    &&& next.sources() == self.sources()
                    &&& next.stage() == following(self.stage(), self.sources().len())
                    &&& next.materials() == match self.stage() {
                        Stage::Material { index } => self.materials().insert(
                            self.sources()[index as int].name@,
                            MaterialHandle { id: index as u64 },
                        ),
                        _ => self.materials(),
                    }
                },
                Err(e) => {
                    &&& !succeeded
                    &&& failure_of(self.stage(), self.sources()) == Some(e@)
                },
            },
    {
        let mut setup = self;
        let count = setup.sources.len();
        match setup.stage {
            Stage::Shader => {
                if !succeeded {
                    return Err(Error::ShaderCompileError);
                }
                setup.stage = if count > 0 {
                    Stage::Material { index: 0 }
                } else {
                    Stage::Import
                };
            },
            Stage::Material { index } => {
                if !succeeded {
                    return Err(Error::ResourceLoadError { path: setup.sources[index].path.clone() });
                }
                let ghost sources = setup.sources@;
                let name = setup.sources[index].name.clone();
                setup.materials.insert(name, MaterialHandle { id: index as u64 });
                proof {
                    let wider = source_pairs(sources, (index + 1) as nat);
                    assert(wider.drop_last() =~= source_pairs(sources, index as nat));
                    assert(wider.last() == (sources[index as int].name@, MaterialHandle {
                        id: index as u64,
                    }));
                }
                setup.stage = if index + 1 < count {
                    Stage::Material { index: index + 1 }
                } else {
                    Stage::Import
                };
            },
            Stage::Import => {
                if !succeeded {
                    return Err(Error::ImportParseError);
                }
                setup.stage = Stage::Ready;
            },
            Stage::Ready => {},
        }
        Ok(setup)
    }

    /// The material table, once setup has come to `Ready`: every source is
    /// registered, in order, so that the last of a name holds.
    pub fn into_materials(self) -> (table: Option<MaterialTable>)
        requires
            self.wf(),
        ensures
            match table {
                Some(t) => self.stage() == Stage::Ready && t@ == registered(
                    source_pairs(self.sources(), self.sources().len()),
                ),
                None => self.stage() != Stage::Ready,
            },
    {
        match self.stage {
            Stage::Ready => Some(self.materials),
            _ => None,
        }
    }
}

} // verus!
