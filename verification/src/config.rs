//! Runtime configuration: the resolved pattern lists and the optional
//! retention threshold in days.
//!
//! Resolution priority is: environment values override a configuration
//! file's values, which override the built-in defaults.  Reading the file
//! and the environment is the caller's business; the merge itself is
//! `Config::from_sources`.

use vstd::prelude::*;
use vstd::string::*;

verus! {

/// The built-in directory patterns, in order.
pub open spec fn default_dir_patterns() -> Seq<Seq<char>> {
    seq![
        ".terraform"@,
        "target"@,
        "node_modules"@,
        "__pycache__"@,
        ".pytest_cache"@,
        ".mypy_cache"@,
        ".tox"@,
        ".ruff_cache"@,
        "venv"@,
        ".venv"@,
        ".eggs"@,
        "*.egg-info"@,
        "dist"@,
        "build"@,
        ".next"@,
        ".nuxt"@,
        ".turbo"@,
        ".gradle"@,
        "coverage"@,
        ".coverage"@,
        "htmlcov"@,
        ".cache"@,
        ".parcel-cache"@,
    ]
}

/// The built-in file patterns, in order.
pub open spec fn default_file_patterns() -> Seq<Seq<char>> {
    seq![
        ".pyc"@,
        ".pyo"@,
        ".pyd"@,
        ".DS_Store"@,
        "Thumbs.db"@,
        "desktop.ini"@,
        ".swp"@,
        ".swo"@,
        "~"@,
    ]
}

/// The default directories to delete.
pub fn default_directories() -> (r: Vec<String>)
    ensures
        r.deep_view() == default_dir_patterns(),
{
    let mut v: Vec<String> = Vec::new();
    v.push(String::from_str(".terraform"));
    v.push(String::from_str("target"));
    v.push(String::from_str("node_modules"));
    v.push(String::from_str("__pycache__"));
    v.push(String::from_str(".pytest_cache"));
    v.push(String::from_str(".mypy_cache"));
    v.push(String::from_str(".tox"));
    v.push(String::from_str(".ruff_cache"));
    v.push(String::from_str("venv"));
    v.push(String::from_str(".venv"));
    v.push(String::from_str(".eggs"));
    v.push(String::from_str("*.egg-info"));
    v.push(String::from_str("dist"));
    v.push(String::from_str("build"));
    v.push(String::from_str(".next"));
    v.push(String::from_str(".nuxt"));
    v.push(String::from_str(".turbo"));
    v.push(String::from_str(".gradle"));
    v.push(String::from_str("coverage"));
    v.push(String::from_str(".coverage"));
    v.push(String::from_str("htmlcov"));
    v.push(String::from_str(".cache"));
    v.push(String::from_str(".parcel-cache"));
    proof {
        assert(v.deep_view() =~= default_dir_patterns());
    }
    v
}

/// The default file patterns to delete.
pub fn default_files() -> (r: Vec<String>)
    ensures
        r.deep_view() == default_file_patterns(),
{
    let mut v: Vec<String> = Vec::new();
    v.push(String::from_str(".pyc"));
    v.push(String::from_str(".pyo"));
    v.push(String::from_str(".pyd"));
    v.push(String::from_str(".DS_Store"));
    v.push(String::from_str("Thumbs.db"));
    v.push(String::from_str("desktop.ini"));
    v.push(String::from_str(".swp"));
    v.push(String::from_str(".swo"));
    v.push(String::from_str("~"));
    proof {
        assert(v.deep_view() =~= default_file_patterns());
    }
    v
}

/// The pattern section of a configuration file, already parsed into plain
/// lists by the caller.
pub struct PatternsConfig {
    pub directories: Vec<String>,
    pub files: Vec<String>,
}

/// A parsed configuration file: optional pattern lists and an optional
/// retention threshold in days.
pub struct ConfigFile {
    pub patterns: PatternsConfig,
    pub days: Option<u64>,
}

/// The resolved runtime configuration.
pub struct Config {
    pub directories: Vec<String>,
    pub files: Vec<String>,
    pub days: Option<u64>,
}

impl Config {
    /// The directory patterns as string slices, in order.
    pub fn directories<'a>(&'a self) -> (r: Vec<&'a str>)
        ensures
            r.deep_view() == self.directories.deep_view(),
    {
        let mut r: Vec<&str> = Vec::new();
        let n = self.directories.len();
        let mut i: usize = 0;
        while i < n
            invariant
                n == self.directories.len(),
                i <= n,
                r@.len() == i,
                forall|j: int| 0 <= j < i ==> r@[j]@ == self.directories@[j]@,
            decreases n - i,
        {
            r.push(self.directories[i].as_str());
            i += 1;
        }
        proof {
            assert forall|j: int| 0 <= j < n implies r.deep_view()[j]
                == self.directories.deep_view()[j] by {
                assert(r.deep_view()[j] == r@[j]@);
                assert(self.directories.deep_view()[j] == self.directories@[j]@);
            }
            assert(r.deep_view() =~= self.directories.deep_view());
        }
        r
    }

    /// The file patterns as string slices, in order.
    pub fn files<'a>(&'a self) -> (r: Vec<&'a str>)
        ensures
            r.deep_view() == self.files.deep_view(),
    {
        let mut r: Vec<&str> = Vec::new();
        let n = self.files.len();
        let mut i: usize = 0;
        while i < n
            invariant
                n == self.files.len(),
                i <= n,
                r@.len() == i,
                forall|j: int| 0 <= j < i ==> r@[j]@ == self.files@[j]@,
            decreases n - i,
        {
            r.push(self.files[i].as_str());
            i += 1;
        }
        proof {
            assert forall|j: int| 0 <= j < n implies r.deep_view()[j]
                == self.files.deep_view()[j] by {
                assert(r.deep_view()[j] == r@[j]@);
                assert(self.files.deep_view()[j] == self.files@[j]@);
            }
            assert(r.deep_view() =~= self.files.deep_view());
        }
        r
    }
}

/// Some character of `s` is a comma.
pub open spec fn has_comma(s: Seq<char>) -> bool {
    exists|k: int| 0 <= k < s.len() && s[k] == ','
}

/// The position of the first comma of `s` (its length when there is
/// none).
pub open spec fn first_comma(s: Seq<char>) -> int
    decreases s.len(),
{
    if s.len() == 0 {
        0
    } else if s[0] == ',' {
        0
    } else {
        1 + first_comma(s.drop_first())
    }
}

pub proof fn lemma_first_comma(s: Seq<char>)
    ensures
        0 <= first_comma(s) <= s.len(),
        has_comma(s) ==> first_comma(s) < s.len() && s[first_comma(s)] == ',',
        forall|k: int| 0 <= k < first_comma(s) ==> s[k] != ',',
    decreases s.len(),
{
    if s.len() > 0 && s[0] != ',' {
        lemma_first_comma(s.drop_first());
        if has_comma(s) {
            let w = choose|k: int| 0 <= k < s.len() && s[k] == ',';
            assert(s.drop_first()[w - 1] == s[w]);
            assert(has_comma(s.drop_first()));
        }
        assert(forall|k: int| 1 <= k < s.len() ==> s[k] == s.drop_first()[k - 1]);
    }
}

/// The comma-separated pieces of `s`, in order; an input without commas
/// is one piece, and each comma separates two pieces.
pub open spec fn split_commas(s: Seq<char>) -> Seq<Seq<char>>
    decreases s.len(),
{
    if !has_comma(s) {
        seq![s]
    } else {
        let fc = first_comma(s);
        if 0 <= fc < s.len() {
            seq![s.subrange(0, fc)] + split_commas(s.subrange(fc + 1, s.len() as int))
        } else {
            seq![s]
        }
    }
}

/// The comma-separated pieces of `s`, each trimmed of surrounding
/// whitespace.
pub open spec fn split_trimmed(s: Seq<char>) -> Seq<Seq<char>> {
    split_commas(s).map_values(|p: Seq<char>| crate::text::trim_of(p))
}

/// Split a comma-separated pattern list and trim each piece.
pub fn split_patterns(s: &str) -> (r: Vec<String>)
    ensures
        r.deep_view() == split_trimmed(s@),
{
    let mut out: Vec<String> = Vec::new();
    let mut rest: &str = s;
    let mut done = false;
    proof {
        assert(out.deep_view() =~= Seq::<Seq<char>>::empty());
    }
    while !done
        invariant
            split_trimmed(s@) =~= out.deep_view() + (if done {
                Seq::<Seq<char>>::empty()
            } else {
                split_trimmed(rest@)
            }),
        decreases rest@.len() + (if done {
            0int
        } else {
            1int
        }),
    {
        let ghost pre_out = out.deep_view();
        let ghost cur = rest@;
        let n = rest.unicode_len();
        let mut k: usize = 0;
        let mut found = false;
        while k < n && !found
            invariant
                n == rest@.len(),
                k <= n,
                !found ==> forall|j: int| 0 <= j < k ==> rest@[j] != ',',
                found ==> k < n && rest@[k as int] == ',' && forall|j: int|
                    0 <= j < k ==> rest@[j] != ',',
            decreases n - k + (if found {
                0int
            } else {
                1int
            }),
        {
            if rest.get_char(k) == ',' {
                found = true;
            } else {
                k += 1;
            }
        }
        proof {
            lemma_first_comma(cur);
        }
        if found {
            proof {
                assert(has_comma(cur));
                assert(first_comma(cur) == k) by {
                    if first_comma(cur) < k {
                        assert(cur[first_comma(cur)] != ',');
                    }
                    if first_comma(cur) > k {
                        assert(cur[k as int] != ',');
                    }
                }
            }
            let piece = rest.substring_char(0, k);
            let trimmed = crate::text::trim_str(piece);
            out.push(trimmed);
            rest = rest.substring_char(k + 1, n);
            proof {
                assert(split_commas(cur) == seq![cur.subrange(0, k as int)] + split_commas(
                    rest@,
                ));
                assert(out.deep_view() =~= pre_out.push(crate::text::trim_of(piece@)));
                assert(split_trimmed(cur) =~= seq![
                    crate::text::trim_of(cur.subrange(0, k as int)),
                ] + split_trimmed(rest@));
            }
        } else {
            proof {
                if has_comma(cur) {
                    let w = choose|w: int| 0 <= w < cur.len() && cur[w] == ',';
                    assert(cur[w] != ',');
                }
                assert(split_commas(cur) == seq![cur]);
            }
            let trimmed = crate::text::trim_str(rest);
            out.push(trimmed);
            done = true;
            proof {
                assert(out.deep_view() =~= pre_out.push(crate::text::trim_of(cur)));
                assert(split_trimmed(cur) =~= seq![crate::text::trim_of(cur)]);
            }
        }
    }
    proof {
        assert(out.deep_view() =~= split_trimmed(s@));
    }
    out
}

/// The character is a decimal digit.
pub open spec fn is_digit(c: char) -> bool {
    48 <= c as u32 <= 57
}

/// The number written by a digit sequence.
pub open spec fn digits_value(s: Seq<char>) -> int
    decreases s.len(),
{
    if s.len() == 0 {
        0
    } else {
        digits_value(s.drop_last()) * 10 + (s.last() as u32 - 48)
    }
}

/// The digits of the input, a leading `+` stripped.
pub open spec fn parse_body(s: Seq<char>) -> Seq<char> {
    if s.len() > 0 && s[0] == '+' {
        s.drop_first()
    } else {
        s
    }
}

/// What parsing an unsigned decimal yields: an optional leading `+`,
/// then at least one digit, the value within range — otherwise nothing.
pub open spec fn parse_u64_spec(s: Seq<char>) -> Option<u64> {
    if parse_body(s).len() > 0 && (forall|k: int|
        0 <= k < parse_body(s).len() ==> is_digit(#[trigger] parse_body(s)[k])) && digits_value(
        parse_body(s),
    ) <= u64::MAX {
        Option::Some(digits_value(parse_body(s)) as u64)
    } else {
        Option::None
    }
}

/// Appending digits never shrinks the value.
proof fn lemma_digits_value_grows(s: Seq<char>, m: int)
    requires
        0 <= m <= s.len(),
        forall|k: int| 0 <= k < s.len() ==> is_digit(#[trigger] s[k]),
        digits_value(s.subrange(0, m)) >= 0,
    ensures
        digits_value(s) >= digits_value(s.subrange(0, m)),
        digits_value(s) >= 0,
    decreases s.len() - m,
{
    if m == s.len() {
        assert(s.subrange(0, m) =~= s);
    } else {
        let nxt = s.subrange(0, m + 1);
        assert(nxt.drop_last() =~= s.subrange(0, m));
        assert(nxt.last() == s[m]);
        assert(digits_value(nxt) == digits_value(s.subrange(0, m)) * 10 + (s[m] as u32 - 48));
        lemma_digits_value_grows(s, m + 1);
    }
}

/// Parse a day count as the retention threshold: an unsigned decimal
/// with an optional leading `+`; anything else, or a value out of
/// range, yields nothing.
pub fn parse_days(s: &str) -> (r: Option<u64>)
    ensures
        r == parse_u64_spec(s@),
{
    let n = s.unicode_len();
    let mut i: usize = 0;
    if n > 0 && s.get_char(0) == '+' {
        i = 1;
    }
    let start = i;
    let ghost body = parse_body(s@);
    proof {
        assert(body =~= s@.subrange(start as int, n as int));
    }
    if i >= n {
        return Option::None;
    }
    let mut v: u64 = 0;
    while i < n
        invariant
            n == s@.len(),
            start <= i <= n,
            start <= 1,
            body == s@.subrange(start as int, n as int),
            body == parse_body(s@),
            forall|k: int| 0 <= k < i - start ==> is_digit(#[trigger] body[k]),
            v as int == digits_value(body.subrange(0, i - start)),
        decreases n - i,
    {
        let c = s.get_char(i);
        let cu = c as u32;
        proof {
            assert(body[i - start] == s@[i as int]);
        }
        if cu < 48 || cu > 57 {
            proof {
                assert(!is_digit(body[i - start]));
                assert(!(forall|k: int|
                    0 <= k < body.len() ==> is_digit(#[trigger] body[k])));
                assert(parse_u64_spec(s@) is None);
            }
            return Option::None;
        }
        let d = (cu - 48) as u64;
        let ghost pre = body.subrange(0, i - start);
        proof {
            assert(body.subrange(0, i - start + 1).drop_last() =~= pre);
            assert(body.subrange(0, i - start + 1).last() == body[i - start]);
        }
        if v > (u64::MAX - d) / 10 {
            // the digits read so far already overflow; more digits only
            // grow the value, so the whole body is out of range.
            proof {
                assert(digits_value(body.subrange(0, i - start + 1)) == v as int * 10 + d);
                assert(v as int * 10 + d > u64::MAX) by {
                    assert(v as int > (u64::MAX - d) as int / 10);
                    assert((u64::MAX - d) as int / 10 * 10 + (u64::MAX - d) as int % 10 == (
                    u64::MAX - d) as int);
                }
                if forall|k: int| 0 <= k < body.len() ==> is_digit(#[trigger] body[k]) {
                    lemma_digits_value_grows(body, i - start + 1);
                    assert(digits_value(body) > u64::MAX);
                }
                assert(parse_u64_spec(s@) is None);
            }
            return Option::None;
        }
        proof {
            assert(v as int * 10 + d <= u64::MAX) by {
                assert(v as int <= (u64::MAX - d) as int / 10);
                assert((u64::MAX - d) as int / 10 * 10 <= (u64::MAX - d) as int);
            }
        }
        v = v * 10 + d;
        i += 1;
    }
    proof {
        assert(body.subrange(0, n - start) =~= body);
    }
    Option::Some(v)
}

impl Config {
    /// Resolve a configuration: environment values override the file's,
    /// which override the defaults.  An environment pattern list is
    /// comma-separated with each piece trimmed; a file's empty pattern
    /// list does not override; an unparsable environment day count falls
    /// back to the file's.
    pub fn from_sources(
        file: Option<ConfigFile>,
        env_dirs: Option<&str>,
        env_files: Option<&str>,
        env_days: Option<&str>,
    ) -> (r: Config)
        ensures
            r.directories.deep_view() == (match env_dirs {
                Option::Some(s) => split_trimmed(s@),
                Option::None => match file {
                    Option::Some(cf) => if cf.patterns.directories@.len() > 0 {
                        cf.patterns.directories.deep_view()
                    } else {
                        default_dir_patterns()
                    },
                    Option::None => default_dir_patterns(),
                },
            }),
            r.files.deep_view() == (match env_files {
                Option::Some(s) => split_trimmed(s@),
                Option::None => match file {
                    Option::Some(cf) => if cf.patterns.files@.len() > 0 {
                        cf.patterns.files.deep_view()
                    } else {
                        default_file_patterns()
                    },
                    Option::None => default_file_patterns(),
                },
            }),
            r.days == (match env_days {
                Option::Some(s) => match parse_u64_spec(s@) {
                    Option::Some(d) => Option::Some(d),
                    Option::None => match file {
                        Option::Some(cf) => cf.days,
                        Option::None => Option::None::<u64>,
                    },
                },
                Option::None => match file {
                    Option::Some(cf) => cf.days,
                    Option::None => Option::None::<u64>,
                },
            }),
    {
        let (file_dirs, file_files, file_days) = match file {
            Option::Some(cf) => (cf.patterns.directories, cf.patterns.files, cf.days),
            Option::None => (Vec::new(), Vec::new(), Option::None),
        };
        let directories = match env_dirs {
            Option::Some(s) => split_patterns(s),
            Option::None => {
                if file_dirs.len() > 0 {
                    file_dirs
                } else {
                    default_directories()
                }
            },
        };
        let files = match env_files {
            Option::Some(s) => split_patterns(s),
            Option::None => {
                if file_files.len() > 0 {
                    file_files
                } else {
                    default_files()
                }
            },
        };
        let days = match env_days {
            Option::Some(s) => match parse_days(s) {
                Option::Some(d) => Option::Some(d),
                Option::None => file_days,
            },
            Option::None => file_days,
        };
        Config { directories, files, days }
    }
}

impl Default for Config {
    /// The built-in defaults: the default pattern lists and no
    /// retention threshold.
    fn default() -> (r: Config)
        ensures
            r.directories.deep_view() == default_dir_patterns(),
            r.files.deep_view() == default_file_patterns(),
            r.days is None,
    {
        Config { directories: default_directories(), files: default_files(), days: Option::None }
    }
}

} // verus!
