//! The uniform response a front end reports to its users.
use vstd::prelude::*;

verus! {

/// The response fields, in order: an empty `result`, the status code, the
/// message and the description.
pub open spec fn response_fields(st: Seq<char>, msg: Seq<char>, description: Option<Seq<char>>) -> Seq<
    (Seq<char>, Seq<char>),
> {
    seq![
        ("result"@, Seq::<char>::empty()),
        ("StatusCode"@, st),
        ("msg"@, msg),
        ("description"@, match description {
            Some(d) => d,
            None => "No description for that Error"@,
        }),
    ]
}

/// The pairs of strings a response holds.
pub open spec fn pair_views(v: Seq<(String, String)>) -> Seq<(Seq<char>, Seq<char>)> {
    v.map_values(|p: (String, String)| (p.0@, p.1@))
}

/// A response with status `st`, message `msg` and a description, or a
/// stock one where none is given.
pub fn create_response(st: &str, msg: &str, description: Option<&str>) -> (r: Vec<(String, String)>)
    ensures
        pair_views(r@) == response_fields(
            st@,
            msg@,
            match description {
                Some(d) => Some(d@),
                None => None,
            },
        ),
{
    let mut response: Vec<(String, String)> = Vec::new();
    response.push((String::from_str("result"), String::new()));
    response.push((String::from_str("StatusCode"), String::from_str(st)));
    response.push((String::from_str("msg"), String::from_str(msg)));
    let desc = match description {
        Some(d) => String::from_str(d),
        None => String::from_str("No description for that Error"),
    };
    response.push((String::from_str("description"), desc));
    proof {
        assert(pair_views(response@) =~= response_fields(
            st@,
            msg@,
            match description {
                Some(d) => Some(d@),
                None => None,
            },
        ));
    }
    response
}

} // verus!
