//! Where every database, table, schema, segment and run lives on disk.
//!
//! Layout under a root `R`:
//! `R/sq/dbd/<db>/<table>/<table>.ifrm` holds the encrypted schema,
//! `R/sq/dbd/<db>/<table>/<n>.rdb` the record segments and
//! `R/sq/dbd/<db>/<table>/lev0/<n>.db` the flushed runs.
use vstd::prelude::*;

verus! {

/// The directory under the root that holds every database.
pub const DB_DIRECTORY: &'static str = "sq/dbd";

/// Extension of a table's schema file.
pub const SCHEMA_EXT: &'static str = ".ifrm";

/// Extension of a record segment.
pub const SEGMENT_EXT: &'static str = ".rdb";

/// Extension of a flushed run.
pub const RUN_EXT: &'static str = ".db";

/// Subdirectory of a table that holds its level-0 runs.
pub const LEVEL0_DIR: &'static str = "lev0";

/// `base/part`.
pub open spec fn join(base: Seq<char>, part: Seq<char>) -> Seq<char> {
    base + seq!['/'] + part
}

/// The path of a sequence of components below the database directory of `root`.
pub open spec fn path_of(root: Seq<char>, comps: Seq<Seq<char>>) -> Seq<char>
    decreases comps.len(),
{
    if comps.len() == 0 {
        join(root, DB_DIRECTORY@)
    } else {
        join(path_of(root, comps.drop_last()), comps.last())
    }
}

/// The views of a slice of string slices.
pub open spec fn views_of(comps: Seq<&str>) -> Seq<Seq<char>> {
    comps.map_values(|c: &str| c@)
}

/// Appends `/part` to a path.
pub fn join_path(base: &str, part: &str) -> (r: String)
    ensures
        r@ == join(base@, part@),
{
    let mut s = String::from_str(base);
    proof {
        reveal_strlit("/");
    }
    s.append("/");
    s.append(part);
    s
}

/// The path of `components` below the database directory of `root`.
pub fn format_path(root: &str, components: &[&str]) -> (r: String)
    ensures
        r@ == path_of(root@, views_of(components@)),
{
    let mut path = join_path(root, DB_DIRECTORY);
    let mut i: usize = 0;
    while i < components.len()
        invariant
            i <= components@.len(),
            path@ == path_of(root@, views_of(components@.take(i as int))),
        decreases components@.len() - i,
    {
        let ghost before = components@.take(i as int);
        proof {
            assert(components@.take(i as int + 1).drop_last() == before);
            assert(views_of(components@.take(i as int + 1)).drop_last() == views_of(before));
        }
        path = join_path(path.as_str(), components[i]);
        i = i + 1;
    }
    proof {
        assert(components@.take(i as int) == components@);
    }
    path
}

/// The decimal digit `d`, for `d < 10`.
pub open spec fn digit_char(d: nat) -> char {
    if d == 0 {
        '0'
    } else if d == 1 {
        '1'
    } else if d == 2 {
        '2'
    } else if d == 3 {
        '3'
    } else if d == 4 {
        '4'
    } else if d == 5 {
        '5'
    } else if d == 6 {
        '6'
    } else if d == 7 {
        '7'
    } else if d == 8 {
        '8'
    } else {
        '9'
    }
}

/// The decimal numeral of `n`, without leading zeros.
pub open spec fn decimal(n: nat) -> Seq<char>
    decreases n,
{
    if n < 10 {
        seq![digit_char(n)]
    } else {
        decimal(n / 10) + seq![digit_char(n % 10)]
    }
}

fn digit_str(d: u64) -> (r: &'static str)
    requires
        d < 10,
    ensures
        r@ == seq![digit_char(d as nat)],
{
    proof {
        reveal_strlit("0");
        reveal_strlit("1");
        reveal_strlit("2");
        reveal_strlit("3");
        reveal_strlit("4");
        reveal_strlit("5");
        reveal_strlit("6");
        reveal_strlit("7");
        reveal_strlit("8");
        reveal_strlit("9");
    }
    match d {
        0 => "0",
        1 => "1",
        2 => "2",
        3 => "3",
        4 => "4",
        5 => "5",
        6 => "6",
        7 => "7",
        8 => "8",
        _ => "9",
    }
}

/// The decimal numeral of `n`.
pub fn decimal_string(n: u64) -> (r: String)
    ensures
        r@ == decimal(n as nat),
    decreases n,
{
    if n < 10 {
        String::from_str(digit_str(n))
    } else {
        let mut s = decimal_string(n / 10);
        s.append(digit_str(n % 10));
        s
    }
}

/// `<n><ext>`: the name of a numbered file.
pub open spec fn numbered(n: nat, ext: Seq<char>) -> Seq<char> {
    decimal(n) + ext
}

/// The name of the numbered file `n` with extension `ext`.
pub fn numbered_name(n: u64, ext: &str) -> (r: String)
    ensures
        r@ == numbered(n as nat, ext@),
{
    let mut s = decimal_string(n);
    s.append(ext);
    s
}

} // verus!
