use vstd::prelude::*;
use vstd::string::StringExecFns;

verus! {

/// The query string the first `i` parameters spell: `key=value` pairs
/// joined by `&`.
pub open spec fn query_prefix_chars(params: Seq<(String, String)>, i: int) -> Seq<char>
    decreases i,
{
    if i <= 0 {
        Seq::empty()
    } else if i == 1 {
        params[0].0@ + "="@ + params[0].1@
    } else {
        query_prefix_chars(params, i - 1) + "&"@ + params[i - 1].0@ + "="@ + params[i - 1].1@
    }
}

/// The query string all the parameters spell.
pub open spec fn query_chars(params: Seq<(String, String)>) -> Seq<char> {
    query_prefix_chars(params, params.len() as int)
}

/// Joins a base URL and query parameters into a request URL:
/// `root?key=value&key=value...`, parameters in the order given.
pub fn create_request_url(root_url: String, params: Vec<(String, String)>) -> (r: String)
    ensures
        r@ == root_url@ + "?"@ + query_chars(params@),
{
    let mut query = String::new();
    let mut i: usize = 0;
    while i < params.len()
        invariant
            0 <= i <= params@.len(),
            query@ == query_prefix_chars(params@, i as int),
        decreases params@.len() - i,
    {
        if i > 0 {
            query.append("&");
        }
        query.append(params[i].0.as_str());
        query.append("=");
        query.append(params[i].1.as_str());
        proof {
            if i == 0 {
                assert(query@ =~= query_prefix_chars(params@, 1));
            }
        }
        i = i + 1;
    }
    let mut out = root_url;
    out.append("?");
    out.append(query.as_str());
    out
}

} // verus!
