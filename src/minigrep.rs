//! Searching the lines of a text for a query, as a small grep does.
use crate::text::{contains, has_substring, lines_of, lower_of, lowercase, split_lines};
use vstd::prelude::*;

verus! {

/// What was asked for on the command line.
pub struct ParsedMainArgs {
    query: String,
    file_path: String,
    ignore_case: bool,
}

/// Why the command line could not be used.
#[derive(Debug, Clone, Copy, PartialEq, Eq)]
pub enum ArgsError {
    /// No query after the program name.
    MissingQuery,
    /// No file path after the query.
    MissingFilePath,
}

impl ParsedMainArgs {
    /// The query.
    pub closed spec fn query_spec(&self) -> Seq<char> {
        self.query@
    }

    /// The path of the file to search.
    pub closed spec fn file_path_spec(&self) -> Seq<char> {
        self.file_path@
    }

    /// Whether case is ignored.
    pub closed spec fn ignore_case_spec(&self) -> bool {
        self.ignore_case
    }

    /// Reads `program query file_path` from `args`, which starts with the
    /// program name.
    pub fn build(args: &Vec<String>, ignore_case: bool) -> (r: Result<Self, ArgsError>)
        requires
            args@.len() >= 1,
        ensures
            args@.len() == 1 ==> r == Err::<Self, ArgsError>(ArgsError::MissingQuery),
            args@.len() == 2 ==> r == Err::<Self, ArgsError>(ArgsError::MissingFilePath),
            args@.len() >= 3 ==> (r matches Ok(p) && p.query_spec() == args@[1]@ && p.file_path_spec()
                == args@[2]@ && p.ignore_case_spec() == ignore_case),
    {
        if args.len() < 2 {
            return Err(ArgsError::MissingQuery);
        }
        if args.len() < 3 {
            return Err(ArgsError::MissingFilePath);
        }
        let query = args[1].clone();
        let file_path = args[2].clone();
        Ok(Self { query, file_path, ignore_case })
    }

    /// The query.
    pub fn query(&self) -> (r: &str)
        ensures
            r@ == self.query_spec(),
    {
        self.query.as_str()
    }

    /// The path of the file to search.
    pub fn file_path(&self) -> (r: &str)
        ensures
            r@ == self.file_path_spec(),
    {
        self.file_path.as_str()
    }

    /// Whether case is ignored.
    pub fn ignore_case(&self) -> (r: bool)
        ensures
            r == self.ignore_case_spec(),
    {
        self.ignore_case
    }
}

/// The numbered lines among the first `n` of `lines` whose key contains
/// `query`, in order.
pub open spec fn selected(lines: Seq<Seq<char>>, keys: Seq<Seq<char>>, query: Seq<char>, n: int) -> Seq<(int, Seq<char>)>
    decreases n,
{
    if n <= 0 {
        Seq::empty()
    } else if has_substring(keys[n - 1], query) {
        selected(lines, keys, query, n - 1).push((n - 1, lines[n - 1]))
    } else {
        selected(lines, keys, query, n - 1)
    }
}

/// The numbered lines and their texts, as plain values.
pub open spec fn numbered(r: Seq<(usize, String)>) -> Seq<(int, Seq<char>)> {
    r.map_values(|p: (usize, String)| (p.0 as int, p.1@))
}

/// Each line `i` of `lines` whose key `keys[i]` contains `query`, with its
/// index.
pub fn select_lines(query: &str, lines: &Vec<String>, keys: &Vec<String>) -> (r: Vec<(usize, String)>)
    requires
        lines@.len() == keys@.len(),
    ensures
        numbered(r@) == selected(
            lines@.map_values(|l: String| l@),
            keys@.map_values(|l: String| l@),
            query@,
            lines@.len() as int,
        ),
{
    let ghost lv = lines@.map_values(|l: String| l@);
    let ghost kv = keys@.map_values(|l: String| l@);
    let mut found: Vec<(usize, String)> = Vec::new();
    let mut i: usize = 0;
    while i < lines.len()
        invariant
            lines@.len() == keys@.len(),
            i <= lines@.len(),
            lv == lines@.map_values(|l: String| l@),
            kv == keys@.map_values(|l: String| l@),
            numbered(found@) == selected(lv, kv, query@, i as int),
        decreases lines@.len() - i,
    {
        if contains(keys[i].as_str(), query) {
            found.push((i, lines[i].clone()));
            proof {
                assert(numbered(found@) =~= numbered(found@.drop_last()).push((i as int, lv[i as int])));
            }
        }
        i = i + 1;
    }
    found
}

/// The lines of `contents` that contain `query`, with their indices.
pub fn search(query: &str, contents: &str) -> (r: Vec<(usize, String)>)
    ensures
        numbered(r@) == selected(lines_of(contents@), lines_of(contents@), query@, lines_of(contents@).len() as int),
{
    let lines = split_lines(contents);
    select_lines(query, &lines, &lines)
}

/// The lines of `contents` that contain `query` when both are put in lower
/// case, with their indices.
pub fn search_case_insensitive(query: &str, contents: &str) -> (r: Vec<(usize, String)>)
    ensures
        numbered(r@) == selected(
            lines_of(contents@),
            lines_of(contents@).map_values(|l: Seq<char>| lower_of(l)),
            lower_of(query@),
            lines_of(contents@).len() as int,
        ),
{
    let lines = split_lines(contents);
    let mut keys: Vec<String> = Vec::new();
    let mut i: usize = 0;
    while i < lines.len()
        invariant
            i <= lines@.len(),
            keys@.len() == i,
            forall|k: int| 0 <= k < i ==> (#[trigger] keys@[k])@ == lower_of(lines@[k]@),
        decreases lines@.len() - i,
    {
        keys.push(lowercase(lines[i].as_str()));
        i = i + 1;
    }
    let lower_query = lowercase(query);
    proof {
        assert(keys@.map_values(|l: String| l@) =~= lines_of(contents@).map_values(|l: Seq<char>| lower_of(l)));
    }
    select_lines(lower_query.as_str(), &lines, &keys)
}

} // verus!
