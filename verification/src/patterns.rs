//! Pattern matching for disposable directories and files.
//!
//! A name denotes a disposable directory when it equals a directory pattern
//! literally, or when a pattern starting with `*` matches the name's suffix.
//! A name denotes a disposable file when it equals a file pattern literally,
//! or the pattern starts with `.` and is a suffix of the name, or the
//! pattern is a plain suffix of the name (which covers trailing markers
//! such as a bare `~`).

use vstd::prelude::*;
use vstd::string::*;
use crate::text::{is_suffix_of, str_eq, str_ends_with};
use crate::config::Config;

verus! {

/// A single directory pattern matches a name: literal equality, or a
/// leading-`*` pattern whose remainder is a suffix of the name.
pub open spec fn dir_pattern_matches(pattern: Seq<char>, name: Seq<char>) -> bool {
    ||| name == pattern
    ||| (pattern.len() > 0 && pattern[0] == '*' && is_suffix_of(
        pattern.subrange(1, pattern.len() as int),
        name,
    ))
}

/// A single file pattern matches a name: literal equality, a `.`-prefixed
/// pattern matched as a suffix, or a generic suffix match.
pub open spec fn file_pattern_matches(pattern: Seq<char>, name: Seq<char>) -> bool {
    ||| name == pattern
    ||| (pattern.len() > 0 && pattern[0] == '.' && is_suffix_of(pattern, name))
    ||| is_suffix_of(pattern, name)
}

/// Some pattern in `patterns` matches `name` as a directory name.
pub open spec fn dir_name_matches(patterns: Seq<Seq<char>>, name: Seq<char>) -> bool {
    exists|i: int| 0 <= i < patterns.len() && dir_pattern_matches(patterns[i], name)
}

/// Some pattern in `patterns` matches `name` as a file name.
pub open spec fn file_name_matches(patterns: Seq<Seq<char>>, name: Seq<char>) -> bool {
    exists|i: int| 0 <= i < patterns.len() && file_pattern_matches(patterns[i], name)
}

/// A name component matches the pattern set, directory or file rules
/// depending on the entry's type.
pub open spec fn name_matches(
    dirs: Seq<Seq<char>>,
    files: Seq<Seq<char>>,
    name: Seq<char>,
    is_dir: bool,
) -> bool {
    if is_dir {
        dir_name_matches(dirs, name)
    } else {
        file_name_matches(files, name)
    }
}

/// Decides whether a single path component denotes a disposable directory
/// or file.  Holds the resolved pattern lists, immutable for a run.
pub struct PatternMatcher {
    pub dirs: Vec<String>,
    pub files: Vec<String>,
}

impl PatternMatcher {
    /// A matcher over the built-in default pattern lists.
    pub fn new() -> (r: PatternMatcher)
        ensures
            r.dirs.deep_view() == crate::config::default_dir_patterns(),
            r.files.deep_view() == crate::config::default_file_patterns(),
    {
        PatternMatcher {
            dirs: crate::config::default_directories(),
            files: crate::config::default_files(),
        }
    }

    /// A matcher over the pattern lists of a resolved configuration.
    pub fn from_config(config: &Config) -> (r: PatternMatcher)
        ensures
            r.dirs.deep_view() == config.directories.deep_view(),
            r.files.deep_view() == config.files.deep_view(),
    {
        PatternMatcher { dirs: config.directories.clone(), files: config.files.clone() }
    }

    /// Does `name` denote a disposable directory?
    pub fn is_temp_directory(&self, name: &str) -> (r: bool)
        ensures
            r == dir_name_matches(self.dirs.deep_view(), name@),
    {
        let n = self.dirs.len();
        let mut i: usize = 0;
        while i < n
            invariant
                n == self.dirs.len(),
                i <= n,
                forall|j: int|
                    0 <= j < i ==> !dir_pattern_matches(self.dirs.deep_view()[j], name@),
            decreases n - i,
        {
            let p: &String = &self.dirs[i];
            proof {
                assert(self.dirs.deep_view()[i as int] == self.dirs@[i as int]@);
            }
            if str_eq(name, p.as_str()) {
                return true;
            }
            let pn = p.as_str().unicode_len();
            if pn > 0 && p.as_str().get_char(0) == '*' {
                let suffix = p.as_str().substring_char(1, pn);
                if str_ends_with(name, suffix) {
                    return true;
                }
            }
            i += 1;
        }
        false
    }

    /// Does `name` denote a disposable file?
    pub fn is_temp_file(&self, name: &str) -> (r: bool)
        ensures
            r == file_name_matches(self.files.deep_view(), name@),
    {
        let n = self.files.len();
        let mut i: usize = 0;
        while i < n
            invariant
                n == self.files.len(),
                i <= n,
                forall|j: int|
                    0 <= j < i ==> !file_pattern_matches(self.files.deep_view()[j], name@),
            decreases n - i,
        {
            let p: &String = &self.files[i];
            proof {
                assert(self.files.deep_view()[i as int] == self.files@[i as int]@);
            }
            if str_eq(name, p.as_str()) {
                return true;
            }
            // A `.`-prefixed suffix match is a special case of a generic
            // suffix match, so one suffix test covers both rules.
            if str_ends_with(name, p.as_str()) {
                return true;
            }
            i += 1;
        }
        false
    }

    /// Does a path component match the pattern set?  The caller extracts the
    /// final component of a path; directory and file rules apply depending
    /// on the entry's type.
    pub fn matches(&self, name: &str, is_dir: bool) -> (r: bool)
        ensures
            r == name_matches(self.dirs.deep_view(), self.files.deep_view(), name@, is_dir),
    {
        if is_dir {
            self.is_temp_directory(name)
        } else {
            self.is_temp_file(name)
        }
    }
}

impl Default for PatternMatcher {
    /// Same as `PatternMatcher::new`: a matcher over the default patterns.
    fn default() -> (r: PatternMatcher)
        ensures
            r.dirs.deep_view() == crate::config::default_dir_patterns(),
            r.files.deep_view() == crate::config::default_file_patterns(),
    {
        PatternMatcher::new()
    }
}

} // verus!
