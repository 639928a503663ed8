use vstd::prelude::*;

verus! {

/// Whether `pattern` occurs in `text` as a run of consecutive characters
/// (the empty pattern occurs everywhere).
pub open spec fn occurs_in(pattern: Seq<char>, text: Seq<char>) -> bool {
    exists|i: int|
        0 <= i && i + pattern.len() <= text.len() && #[trigger] text.subrange(i, i + pattern.len())
            == pattern
}

/// The pieces of `s` between newline characters, in order: one more piece
/// than there are newlines.
pub open spec fn split_newlines(s: Seq<char>) -> Seq<Seq<char>>
    decreases s.len(),
{
    if s.len() == 0 {
        seq![Seq::empty()]
    } else {
        let init = split_newlines(s.drop_last());
        if s.last() == '\n' {
            init.push(Seq::empty())
        } else {
            init.update(init.len() - 1, init.last().push(s.last()))
        }
    }
}

/// A line without the carriage return that ends it, if one does.
pub open spec fn strip_cr(line: Seq<char>) -> Seq<char> {
    if line.len() > 0 && line.last() == '\r' {
        line.drop_last()
    } else {
        line
    }
}

/// The lines of a text: the text is split at each `\n` or `\r\n`, the line
/// ending is not part of a line, and a final line ending adds no empty line.
pub open spec fn text_lines(s: Seq<char>) -> Seq<Seq<char>> {
    let pieces = split_newlines(s);
    let ended = pieces.drop_last().map_values(|l: Seq<char>| strip_cr(l));
    if pieces.last().len() == 0 {
        ended
    } else {
        ended.push(pieces.last())
    }
}

/// The lines of `contents` in which `pattern` occurs, in their order.
pub open spec fn matching_lines(pattern: Seq<char>, contents: Seq<char>) -> Seq<Seq<char>> {
    text_lines(contents).filter(|l: Seq<char>| occurs_in(pattern, l))
}

/// What `str::to_lowercase` makes of a text.
pub uninterp spec fn lower_of(s: Seq<char>) -> Seq<char>;

/// Relies on `str::lines`: the lines of the text, split at `\n` and at
/// `\r\n`, without their endings, and no empty line after a final ending.
#[verifier::external_body]
fn lines_of<'a>(contents: &'a str) -> (r: Vec<&'a str>)
    ensures
        r@.map_values(|l: &str| l@) == text_lines(contents@),
{
    contents.lines().collect()
}

/// Relies on `str::contains` with a `&str` pattern: whether the pattern
/// occurs in the text.
#[verifier::external_body]
fn contains_str(text: &str, pattern: &str) -> (r: bool)
    ensures
        r == occurs_in(pattern@, text@),
{
    text.contains(pattern)
}

/// Relies on `str::to_lowercase`: the result depends on the characters alone,
/// and the empty text stays empty.
#[verifier::external_body]
fn lowercase(s: &str) -> (r: String)
    ensures
        r@ == lower_of(s@),
        s@.len() == 0 ==> r@.len() == 0,
{
    s.to_lowercase()
}

/// The lines of `contents` in which `pattern` occurs, in order.
pub fn search_for<'a>(pattern: &str, contents: &'a str) -> (r: Vec<&'a str>)
    ensures
        r@.map_values(|l: &str| l@) == matching_lines(pattern@, contents@),
{
    let lines = lines_of(contents);
    let ghost all = lines@.map_values(|l: &str| l@);
    let ghost pred = |l: Seq<char>| occurs_in(pattern@, l);
    let mut result: Vec<&'a str> = Vec::new();
    let mut i: usize = 0;
    while i < lines.len()
        invariant
            i <= lines.len(),
            all == lines@.map_values(|l: &str| l@),
            all == text_lines(contents@),
            pred == (|l: Seq<char>| occurs_in(pattern@, l)),
            result@.map_values(|l: &str| l@) == all.take(i as int).filter(pred),
        decreases lines.len() - i,
    {
        let line = lines[i];
        let hit = contains_str(line, pattern);
        proof {
            reveal(Seq::filter);
            assert(all.take(i + 1).drop_last() =~= all.take(i as int));
            assert(all.take(i + 1).last() == line@);
        }
        if hit {
            result.push(line);
            assert(result@.map_values(|l: &str| l@) =~= all.take(i as int).filter(pred).push(
                line@,
            ));
        }
        i = i + 1;
    }
    assert(all.take(i as int) =~= all);
    result
}

/// The lines of `contents` that contain `query`; with `ignore_case` the
/// query is lowered first (the lines are taken as they are).
pub fn search<'a>(query: &str, contents: &'a str, ignore_case: bool) -> (r: Vec<&'a str>)
    ensures
        r@.map_values(|l: &str| l@) == matching_lines(
            if ignore_case {
                lower_of(query@)
            } else {
                query@
            },
            contents@,
        ),
{
    let formatted_query: String = if ignore_case {
        lowercase(query)
    } else {
        query.to_owned()
    };
    search_for(formatted_query.as_str(), contents)
}

/// What a search is asked to do: the query, the file to read, and whether
/// to lower the query first.
pub struct Config {
    pub query: String,
    pub path: String,
    pub ignore_case: bool,
}

impl Config {
    /// Builds a search from the command line `args` (the program's name
    /// first, then the query and the path); `ignore_case` comes from the
    /// caller's environment.
    pub fn build(args: &[String], ignore_case: bool) -> (r: Result<Config, &'static str>)
        ensures
            r is Err <==> args@.len() < 3,
            r is Err ==> r->Err_0@ == "Not enough arguments"@,
            r matches Ok(c) ==> c.query@ == args@[1]@ && c.path@ == args@[2]@ && c.ignore_case
                == ignore_case,
    {
        if args.len() < 3 {
            proof {
                reveal_strlit("Not enough arguments");
            }
            return Err("Not enough arguments");
        }
        let query = args[1].clone();
        let path = args[2].clone();
        Ok(Config { query, path, ignore_case })
    }

    /// The lines of `contents` that this search selects.
    pub fn select<'a>(&self, contents: &'a str) -> (r: Vec<&'a str>)
        ensures
            r@.map_values(|l: &str| l@) == matching_lines(
                if self.ignore_case {
                    lower_of(self.query@)
                } else {
                    self.query@
                },
                contents@,
            ),
    {
        search(self.query.as_str(), contents, self.ignore_case)
    }
}

} // verus!
