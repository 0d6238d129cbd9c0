//! Where the tool keeps its data.

use vstd::prelude::*;
use crate::artifact::{file_name, kind_of_path, name_of_file, SourceFileKind};
use crate::text::{chars_of, has_at, starts_with};

verus! {

/// The tool has no home: neither was one configured nor has the user one.
#[derive(Debug, Clone, Copy, PartialEq, Eq, Structural)]
pub enum Error {
    NoHome,
}

impl Error {
    pub fn to_string(&self) -> (r: String)
        ensures
            r@ == "Cannot identify home directory"@,
    {
        "Cannot identify home directory".to_owned()
    }
}

/// `name` below the directory `base`: a `/` is put between the two unless
/// `base` is empty or ends with one.
pub open spec fn path_below(base: Seq<char>, name: Seq<char>) -> Seq<char> {
    if base.len() == 0 || base.last() == '/' {
        base + name
    } else {
        base + seq!['/'] + name
    }
}

/// `name` below the directory `base`.
pub fn join_path(base: &str, name: &str) -> (r: String)
    ensures
        r@ == path_below(base@, name@),
{
    let chars = chars_of(base);
    let mut r = base.to_owned();
    if chars.len() > 0 && chars[chars.len() - 1] != '/' {
        r.push('/');
    }
    r.push_str(name);
    assert(r@ =~= path_below(base@, name@));
    r
}

/// The directory used as home for the tool: the one that was configured,
/// or else the home of the user.
pub fn tracer_home(configured: Option<&str>, user_home: Option<&str>) -> (r: Option<String>)
    ensures
        match r {
            Some(dir) => match configured {
                Some(c) => dir@ == c@,
                None => user_home is Some && dir@ == user_home.unwrap()@,
            },
            None => configured is None && user_home is None,
        },
{
    match configured {
        Some(dir) => Some(dir.to_owned()),
        None => match user_home {
            Some(dir) => Some(dir.to_owned()),
            None => None,
        },
    }
}

/// The directory used for storing local data: `.tracer` below the home of
/// the tool.
///
/// Fails exactly when the tool has no home.
pub fn tracer_dir(home: Option<&str>) -> (r: Result<String, Error>)
    ensures
        match r {
            Ok(dir) => home is Some && dir@ == path_below(home.unwrap()@, ".tracer"@),
            Err(_) => home is None,
        },
{
    match home {
        Some(home) => Ok(join_path(home, ".tracer")),
        None => Err(Error::NoHome),
    }
}

/// The database: `tracer.db` in the directory for local data.
pub fn tracer_db(home: Option<&str>) -> (r: Result<String, Error>)
    ensures
        match r {
            Ok(file) => home is Some && file@ == path_below(
                path_below(home.unwrap()@, ".tracer"@),
                "tracer.db"@,
            ),
            Err(_) => home is None,
        },
{
    match tracer_dir(home) {
        Ok(dir) => Ok(join_path(dir.as_str(), "tracer.db")),
        Err(e) => Err(e),
    }
}

/// The directory in which contexts are stored: `contexts` in the directory
/// for local data.
pub fn contexts_dir(home: Option<&str>) -> (r: Result<String, Error>)
    ensures
        match r {
            Ok(dir) => home is Some && dir@ == path_below(
                path_below(home.unwrap()@, ".tracer"@),
                "contexts"@,
            ),
            Err(_) => home is None,
        },
{
    match tracer_dir(home) {
        Ok(dir) => Ok(join_path(dir.as_str(), "contexts")),
        Err(e) => Err(e),
    }
}

/// Whether a file of this name is hidden: its name starts with a dot.
pub fn is_hidden(name: &str) -> (r: bool)
    ensures
        r == has_at(name@, 0, seq!['.']),
{
    proof {
        reveal_strlit(".");
        assert("."@ =~= seq!['.']);
    }
    starts_with(name, ".")
}

/// Whether units are looked for in the file at `path`: it is not hidden and
/// its extension is one of a kind of source file.
pub open spec fn is_supported(path: Seq<char>) -> bool {
    match file_name(path) {
        Some(name) => !has_at(name, 0, seq!['.']) && kind_of_path(path) is Ok,
        None => false,
    }
}

/// Whether units are looked for in the file at `path`.
pub fn source_file_is_supported(path: &str) -> (r: bool)
    ensures
        r == is_supported(path@),
{
    match name_of_file(path) {
        Some(name) => !is_hidden(name.as_str()) && SourceFileKind::of_path(path).is_ok(),
        None => false,
    }
}

/// The paths among the first `n` of `paths` in whose files units are looked
/// for.
pub open spec fn supported_among(paths: Seq<Seq<char>>, n: int) -> Seq<Seq<char>>
    decreases n,
{
    if n <= 0 || n > paths.len() {
        Seq::empty()
    } else if is_supported(paths[n - 1]) {
        supported_among(paths, n - 1).push(paths[n - 1])
    } else {
        supported_among(paths, n - 1)
    }
}

/// Of the files found below a directory, those in which units are looked
/// for, in the order in which they were found.
pub fn find_all_supported_source_files(found: &Vec<String>) -> (r: Vec<String>)
    ensures
        crate::text::strings_view(r@) == supported_among(
            crate::text::strings_view(found@),
            found@.len() as int,
        ),
{
    let ghost all = crate::text::strings_view(found@);
    let mut r: Vec<String> = Vec::new();
    let mut i: usize = 0;
    assert(crate::text::strings_view(r@) =~= supported_among(all, 0));
    while i < found.len()
        invariant
            all == crate::text::strings_view(found@),
            i <= found.len(),
            crate::text::strings_view(r@) == supported_among(all, i as int),
        decreases found.len() - i,
    {
        assert(all[i as int] == found@[i as int]@);
        if source_file_is_supported(found[i].as_str()) {
            let ghost before = crate::text::strings_view(r@);
            r.push(found[i].clone());
            assert(crate::text::strings_view(r@) =~= before.push(found@[i as int]@));
        }
        i += 1;
    }
    r
}

} // verus!
