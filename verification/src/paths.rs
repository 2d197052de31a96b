//! Where the parts of a repository lie, relative to the working directory.

use vstd::prelude::*;

verus! {

/// The repository's directory: `".rgit"`
pub const ROOT: [u8; 5] = [0x2e, 0x72, 0x67, 0x69, 0x74];

/// The object store, under the repository's directory: `"/objects"`
pub const OBJECTS: [u8; 8] = [0x2f, 0x6f, 0x62, 0x6a, 0x65, 0x63, 0x74, 0x73];

/// The refs, under the repository's directory: `"/refs"`
pub const REFS: [u8; 5] = [0x2f, 0x72, 0x65, 0x66, 0x73];

/// The branch heads, under the refs: `"/heads"`
pub const HEADS: [u8; 6] = [0x2f, 0x68, 0x65, 0x61, 0x64, 0x73];

/// The file that names the current branch: `"/HEAD"`
pub const HEAD: [u8; 5] = [0x2f, 0x48, 0x45, 0x41, 0x44];

/// The file that holds the index: `"/index.json"`
pub const INDEX: [u8; 11] = [0x2f, 0x69, 0x6e, 0x64, 0x65, 0x78, 0x2e, 0x6a, 0x73, 0x6f, 0x6e];

/// The ignore file, in the working directory: `".gitignore"`
pub const IGNORE: [u8; 10] = [0x2e, 0x67, 0x69, 0x74, 0x69, 0x67, 0x6e, 0x6f, 0x72, 0x65];

pub struct Paths;

impl Paths {
    pub fn root() -> (out: Vec<u8>)
        ensures
            out@ == ROOT@,
    {
        let mut out: Vec<u8> = Vec::new();
        out.extend_from_slice(&ROOT);
        out
    }

    pub fn objects() -> (out: Vec<u8>)
        ensures
            out@ == ROOT@ + OBJECTS@,
    {
        let mut out = Paths::root();
        out.extend_from_slice(&OBJECTS);
        out
    }

    pub fn refs() -> (out: Vec<u8>)
        ensures
            out@ == ROOT@ + REFS@,
    {
        let mut out = Paths::root();
        out.extend_from_slice(&REFS);
        out
    }

    pub fn index() -> (out: Vec<u8>)
        ensures
            out@ == ROOT@ + INDEX@,
    {
        let mut out = Paths::root();
        out.extend_from_slice(&INDEX);
        out
    }

    /// The directories that make up an empty repository.
    pub fn dirs() -> (out: Vec<Vec<u8>>)
        ensures
            out@.len() == 3,
            out@[0]@ == ROOT@ + OBJECTS@,
            out@[1]@ == ROOT@ + REFS@,
            out@[2]@ == ROOT@ + REFS@ + HEADS@,
    {
        let mut out: Vec<Vec<u8>> = Vec::new();
        out.push(Paths::objects());
        out.push(Paths::refs());
        out.push(Paths::heads());
        out
    }

    pub fn ignore() -> (out: Vec<u8>)
        ensures
            out@ == IGNORE@,
    {
        let mut out: Vec<u8> = Vec::new();
        out.extend_from_slice(&IGNORE);
        out
    }

    pub fn heads() -> (out: Vec<u8>)
        ensures
            out@ == ROOT@ + REFS@ + HEADS@,
    {
        let mut out = Paths::refs();
        out.extend_from_slice(&HEADS);
        out
    }

    #[allow(non_snake_case)]
    pub fn HEAD() -> (out: Vec<u8>)
        ensures
            out@ == ROOT@ + HEAD@,
    {
        let mut out = Paths::root();
        out.extend_from_slice(&HEAD);
        out
    }

    /// The file of one object, named by its digest.
    pub fn object(sha: &[u8]) -> (out: Vec<u8>)
        ensures
            out@ == ROOT@ + OBJECTS@ + seq![0x2fu8] + sha@,
    {
        let mut out = Paths::objects();
        out.push(0x2f);
        out.extend_from_slice(sha);
        out
    }

    /// The ref file of one branch.
    pub fn head(branch: &[u8]) -> (out: Vec<u8>)
        ensures
            out@ == ROOT@ + REFS@ + HEADS@ + seq![0x2fu8] + branch@,
    {
        let mut out = Paths::heads();
        out.push(0x2f);
        out.extend_from_slice(branch);
        out
    }
}

} // verus!
