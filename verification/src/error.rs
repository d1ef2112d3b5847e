//! What can stop the setup of a scene.
use vstd::prelude::*;

verus! {

/// A failure of scene setup. Each is fatal to the setup in which it arises.
#[derive(Clone, Debug, PartialEq, Eq)]
pub enum Error {
    /// The image at `path` could not be opened or decoded.
    ResourceLoadError { path: String },
    /// The shader shared by all materials did not compile.
    ShaderCompileError,
    /// The node named `node` refers to a mesh, and no material is registered
    /// under its name.
    MaterialNotFound { node: String },
    /// A node refers to the mesh `index`, which the mesh table does not hold.
    MeshIndexOutOfRange { index: u32 },
    /// The importer could not parse the asset.
    ImportParseError,
}

/// The mathematical value of an [`Error`].
pub enum Failure {
    ResourceLoad { path: Seq<char> },
    ShaderCompile,
    MaterialNotFound { node: Seq<char> },
    MeshIndexOutOfRange { index: u32 },
    ImportParse,
}

impl View for Error {
    type V = Failure;

    open spec fn view(&self) -> Failure {
        match self {
            Error::ResourceLoadError { path } => Failure::ResourceLoad { path: path@ },
            Error::ShaderCompileError => Failure::ShaderCompile,
            Error::MaterialNotFound { node } => Failure::MaterialNotFound { node: node@ },
            Error::MeshIndexOutOfRange { index } => Failure::MeshIndexOutOfRange { index: *index },
            Error::ImportParseError => Failure::ImportParse,
        }
    }
}

} // verus!
