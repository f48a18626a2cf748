//! The catalog of installed packages, read from the listing that the package
//! tool prints: one package to the line, `name-version`, spaces, description.

use crate::package::{infos, Package, PackageInfo};
use crate::text::{chars_of, string_of};
use vstd::prelude::*;
use vstd::string::{StrSliceExecFns, StringExecFns};

verus! {

/// The position of the last hyphen of `s`; -1 where it has none.
pub open spec fn last_dash(s: Seq<char>) -> int
    decreases s.len(),
{
    if s.len() == 0 {
        -1
    } else if s.last() == '-' {
        s.len() - 1
    } else {
        last_dash(s.drop_last())
    }
}

/// `s` cut at its last hyphen into what stands before and what stands after
/// it; nothing where it has no hyphen.
pub open spec fn split_at_last_dash(s: Seq<char>) -> Option<(Seq<char>, Seq<char>)> {
    let i = last_dash(s);
    if i < 0 {
        None
    } else {
        Some((s.take(i), s.skip(i + 1)))
    }
}

/// The first position at or after `from` where `s` has a space (`space`) or
/// has something else (`!space`); the length of `s` where there is none.
pub open spec fn scan(s: Seq<char>, from: int, space: bool) -> int
    decreases s.len() - from,
{
    if from < 0 || from >= s.len() {
        s.len() as int
    } else if (s[from] == ' ') == space {
        from
    } else {
        scan(s, from + 1, space)
    }
}

/// What one line of the listing holds.
pub enum LineReading {
    /// No package: the line does not start with a token that spaces and then
    /// a description follow.
    Skipped,
    /// A package.
    Entry(PackageInfo),
    /// A line of the right shape whose token has no hyphen, so that no version
    /// can be told from the name.
    Unversioned,
}

/// Reads one line. The token runs up to the first space, the description
/// starts at the first character after it that is no space, and the token is
/// cut into name and version at its last hyphen.
pub open spec fn read_line(line: Seq<char>) -> LineReading {
    let a = scan(line, 0, true);
    let b = scan(line, a, false);
    if a == 0 || b >= line.len() {
        LineReading::Skipped
    } else {
        match split_at_last_dash(line.take(a)) {
            None => LineReading::Unversioned,
            Some((name, version)) => LineReading::Entry(
                PackageInfo { name, version, description: line.skip(b), dependencies: None },
            ),
        }
    }
}

/// `text` cut at every line feed. A text with n line feeds has n + 1 lines,
/// some of which may be empty.
pub open spec fn lines(text: Seq<char>) -> Seq<Seq<char>>
    decreases text.len(),
{
    if text.len() == 0 {
        seq![Seq::empty()]
    } else {
        let head = lines(text.drop_last());
        if text.last() == '\n' {
            head.push(Seq::empty())
        } else {
            head.drop_last().push(head.last().push(text.last()))
        }
    }
}

/// The packages that the lines hold, in order.
pub open spec fn packages_of(ls: Seq<Seq<char>>) -> Seq<PackageInfo>
    decreases ls.len(),
{
    if ls.len() == 0 {
        Seq::empty()
    } else {
        let head = packages_of(ls.drop_last());
        match read_line(ls.last()) {
            LineReading::Entry(p) => head.push(p),
            _ => head,
        }
    }
}

/// Line `i` has the shape of a package line, but no version.
pub open spec fn unversioned_at(ls: Seq<Seq<char>>, i: int) -> bool {
    0 <= i < ls.len() && read_line(ls[i]) is Unversioned
}

/// What one line of the listing holds.
pub enum ListingLine {
    Skipped,
    Entry(Package),
    Unversioned,
}

impl View for ListingLine {
    type V = LineReading;

    open spec fn view(&self) -> LineReading {
        match self {
            ListingLine::Skipped => LineReading::Skipped,
            ListingLine::Entry(p) => LineReading::Entry(p@),
            ListingLine::Unversioned => LineReading::Unversioned,
        }
    }
}

/// The listing cannot be read: the line with this number, counted from 0, has
/// a token without a hyphen.
#[derive(Debug, PartialEq, Eq)]
pub struct ListingError {
    pub line: usize,
}

/// Cuts `combined` into name and version at its last hyphen, which belongs to
/// neither. A name may hold hyphens itself; a token without any gives nothing.
pub fn split_name_version<'a>(combined: &'a str) -> (r: Option<(&'a str, &'a str)>)
    ensures
        match r {
            Some((name, version)) => split_at_last_dash(combined@) == Some((name@, version@)),
            None => split_at_last_dash(combined@) is None,
        },
{
    let chars = chars_of(combined);
    let n: usize = chars.len();
    let mut i: usize = n;
    assert(combined@.take(n as int) =~= combined@);
    while i > 0
        invariant
            i <= n,
            n == combined@.len(),
            chars@ == combined@,
            last_dash(combined@) == last_dash(combined@.take(i as int)),
        decreases i,
    {
        i -= 1;
        assert(combined@.take(i + 1).drop_last() =~= combined@.take(i as int));
        if chars[i] == '-' {
            return Some((combined.substring_char(0, i), combined.substring_char(i + 1, n)));
        }
    }
    None
}

/// The position that `scan` gives.
fn scan_chars(line: &Vec<char>, from: usize, space: bool) -> (i: usize)
    requires
        from <= line@.len(),
    ensures
        i == scan(line@, from as int, space),
        from <= i <= line@.len(),
{
    let mut i: usize = from;
    while i < line.len()
        invariant
            from <= i <= line@.len(),
            scan(line@, i as int, space) == scan(line@, from as int, space),
        decreases line@.len() - i,
    {
        if (line[i] == ' ') == space {
            return i;
        }
        i += 1;
    }
    i
}

/// Reads one line that is held as characters.
fn read_chars(line: &Vec<char>) -> (r: ListingLine)
    ensures
        r@ == read_line(line@),
{
    let n: usize = line.len();
    let a: usize = scan_chars(line, 0, true);
    let b: usize = scan_chars(line, a, false);
    if a == 0 || b >= n {
        return ListingLine::Skipped;
    }
    let token = string_of(line, 0, a);
    match split_name_version(token.as_str()) {
        None => ListingLine::Unversioned,
        Some((name, version)) => {
            let description = string_of(line, b, n);
            ListingLine::Entry(
                Package {
                    name: String::from_str(name),
                    version: String::from_str(version),
                    description,
                    dependencies: None,
                },
            )
        },
    }
}

/// Reads one line of the listing.
pub fn parse_listing_line(line: &str) -> (r: ListingLine)
    ensures
        r@ == read_line(line@),
{
    let chars = chars_of(line);
    read_chars(&chars)
}

/// The characters of each line of `ls`.
pub open spec fn rows(ls: Seq<Vec<char>>) -> Seq<Seq<char>> {
    ls.map_values(|l: Vec<char>| l@)
}

/// Cuts `text` into its lines.
pub fn split_lines(text: &str) -> (ls: Vec<Vec<char>>)
    ensures
        rows(ls@) == lines(text@),
{
    let mut done: Vec<Vec<char>> = Vec::new();
    let mut current: Vec<char> = Vec::new();
    assert(rows(done@).push(current@) =~= lines(text@.take(0)));
    for c in it: text.chars()
        invariant
            it.seq() == text@,
            rows(done@).push(current@) == lines(text@.take(it.index() as int)),
    {
        let ghost before = text@.take(it.index() as int);
        let ghost next = text@.take(it.index() + 1);
        assert(next.drop_last() =~= before);
        assert(next.last() == c);
        assert(lines(before).drop_last() =~= rows(done@));
        assert(lines(before).last() == current@);
        if c == '\n' {
            let ghost finished = rows(done@).push(current@);
            done.push(current);
            current = Vec::new();
            assert(rows(done@) =~= finished);
        } else {
            current.push(c);
        }
        assert(rows(done@).push(current@) =~= lines(next));
    }
    assert(text@.take(text@.len() as int) =~= text@);
    let ghost all = rows(done@).push(current@);
    done.push(current);
    assert(rows(done@) =~= all);
    done
}

/// Reads the listing of installed packages. Each line that starts with a
/// `name-version` token, followed by spaces and a description, gives one
/// package, in the order of the lines; lines of another shape are passed over.
/// The first line whose token has no hyphen stops the reading with an error
/// that names it.
pub fn parse_listing(text: &str) -> (r: Result<Vec<Package>, ListingError>)
    ensures
        match r {
            Ok(packages) => {
                &&& infos(packages@) == packages_of(lines(text@))
                &&& forall|i: int| !unversioned_at(lines(text@), i)
            },
            Err(e) => {
                &&& unversioned_at(lines(text@), e.line as int)
                &&& forall|i: int| 0 <= i < e.line ==> !unversioned_at(lines(text@), i)
            },
        },
{
    let ls = split_lines(text);
    let ghost all = lines(text@);
    let mut packages: Vec<Package> = Vec::new();
    let mut k: usize = 0;
    assert(infos(packages@) =~= packages_of(all.take(0)));
    while k < ls.len()
        invariant
            k <= ls@.len(),
            all == lines(text@),
            rows(ls@) == all,
            infos(packages@) == packages_of(all.take(k as int)),
            forall|i: int| 0 <= i < k ==> !unversioned_at(all, i),
        decreases ls@.len() - k,
    {
        let ghost next = all.take(k + 1);
        assert(next.drop_last() =~= all.take(k as int));
        assert(next.last() == ls@[k as int]@);
        match read_chars(&ls[k]) {
            ListingLine::Skipped => {},
            ListingLine::Entry(p) => {
                let ghost before = infos(packages@);
                packages.push(p);
                assert(infos(packages@) =~= before.push(p@));
            },
            ListingLine::Unversioned => {
                return Err(ListingError { line: k });
            },
        }
        k += 1;
    }
    assert(all.take(k as int) =~= all);
    Ok(packages)
}

} // verus!
