//! The ignore filter: which working-directory paths are never staged.

use crate::identifiers::SLASH;
use crate::text::{
    copy_bytes, copy_range, has_prefix, same_bytes, split, split_on, starts_with, views,
};
use vstd::prelude::*;

verus! {

/// The line feed that ends a line of the ignore file.
pub const LINE_FEED: u8 = 0x0a;

/// The carriage return that may stand before a line feed.
pub const CARRIAGE_RETURN: u8 = 0x0d;

/// `".git"`
pub const GIT_DIR: [u8; 4] = [0x2e, 0x67, 0x69, 0x74];

/// `".rgit"`
pub const RGIT_DIR: [u8; 5] = [0x2e, 0x72, 0x67, 0x69, 0x74];

/// A line without the carriage return that may end it.
pub open spec fn without_carriage_return(line: Seq<u8>) -> Seq<u8> {
    if line.len() > 0 && line.last() == CARRIAGE_RETURN {
        line.drop_last()
    } else {
        line
    }
}

/// The lines that a filter is made of: those of the ignore file, then the
/// two metadata directories, which are always excluded.
pub open spec fn ignore_lines(contents: Seq<u8>) -> Seq<Seq<u8>> {
    split(contents, LINE_FEED).map_values(|line: Seq<u8>| without_carriage_return(line))
        + seq![GIT_DIR@, RGIT_DIR@]
}

/// `line` excludes `path`: the path is the line itself, or lies under the
/// directory that the line names.
pub open spec fn excludes(line: Seq<u8>, path: Seq<u8>) -> bool {
    path == line || has_prefix(path, line + seq![SLASH])
}

/// No line excludes `path`.
pub open spec fn allowed(lines: Seq<Seq<u8>>, path: Seq<u8>) -> bool {
    forall|i: int| 0 <= i < lines.len() ==> !excludes(#[trigger] lines[i], path)
}

#[derive(Debug)]
pub struct IgnoreFilter {
    ignore_paths: Vec<Vec<u8>>,
}

impl View for IgnoreFilter {
    type V = Seq<Seq<u8>>;

    closed spec fn view(&self) -> Seq<Seq<u8>> {
        views(self.ignore_paths@)
    }
}

impl IgnoreFilter {
    /// The filter that the content of an ignore file asks for.
    pub fn new(contents: &[u8]) -> (out: IgnoreFilter)
        ensures
            out@ == ignore_lines(contents@),
    {
        let lines = split_on(contents, LINE_FEED);
        let mut ignore_paths: Vec<Vec<u8>> = Vec::new();
        let mut i: usize = 0;
        while i < lines.len()
            invariant
                0 <= i <= lines.len(),
                views(lines@) == split(contents@, LINE_FEED),
                views(ignore_paths@) == views(lines@).take(i as int).map_values(
                    |line: Seq<u8>| without_carriage_return(line),
                ),
            decreases lines.len() - i,
        {
            let line = &lines[i];
            let n: usize = line.len();
            let kept = if n > 0 && line[n - 1] == CARRIAGE_RETURN {
                copy_range(line.as_slice(), 0, n - 1)
            } else {
                copy_bytes(line.as_slice())
            };
            let ghost before = views(ignore_paths@);
            ignore_paths.push(kept);
            proof {
                assert(kept@ =~= without_carriage_return(line@));
                assert(views(ignore_paths@) =~= before.push(kept@));
                assert(views(lines@).take(i + 1) =~= views(lines@).take(i as int).push(line@));
                assert(views(ignore_paths@) =~= views(lines@).take(i + 1).map_values(
                    |line: Seq<u8>| without_carriage_return(line),
                ));
            }
            i += 1;
        }
        let ghost before = views(ignore_paths@);
        ignore_paths.push(copy_bytes(&GIT_DIR));
        ignore_paths.push(copy_bytes(&RGIT_DIR));
        proof {
            assert(views(lines@).take(i as int) =~= views(lines@));
            assert(views(ignore_paths@) =~= before + seq![GIT_DIR@, RGIT_DIR@]);
        }
        IgnoreFilter { ignore_paths }
    }

    /// Whether `path` may be staged: no line of the filter excludes it.
    pub fn is_valid(&self, path: &[u8]) -> (out: bool)
        ensures
            out == allowed(self@, path@),
    {
        let mut i: usize = 0;
        while i < self.ignore_paths.len()
            invariant
                0 <= i <= self.ignore_paths.len(),
                forall|j: int| 0 <= j < i ==> !excludes(#[trigger] self@[j], path@),
            decreases self.ignore_paths.len() - i,
        {
            let line = &self.ignore_paths[i];
            let mut dir = copy_bytes(line.as_slice());
            dir.push(SLASH);
            proof {
                assert(self@[i as int] == line@);
                assert(dir@ =~= line@ + seq![SLASH]);
            }
            if same_bytes(path, line.as_slice()) || starts_with(path, dir.as_slice()) {
                return false;
            }
            i += 1;
        }
        true
    }
}

} // verus!
