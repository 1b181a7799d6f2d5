//! Case-insensitive header name lookup + canonical-form name constants.

use crate::text::{bytes_of, eq_ignore_ascii_case, str_eq_ignore_ascii_case};
use vstd::prelude::*;

verus! {

pub const HOST: &'static str = "host";

pub const CONTENT_LENGTH: &'static str = "content-length";

pub const CONNECTION: &'static str = "connection";

pub const SERVER: &'static str = "server";

pub const DATE: &'static str = "date";

pub const TRANSFER_ENCODING: &'static str = "transfer-encoding";

pub const CONTENT_TYPE: &'static str = "content-type";

/// The redirect response's `location:` header.
pub const LOCATION: &'static str = "location";

/// A header list as `(name, value)` character sequences, in order.
pub open spec fn headers_view(headers: Seq<(String, String)>) -> Seq<(Seq<char>, Seq<char>)> {
    headers.map_values(|h: (String, String)| (h.0@, h.1@))
}

/// Whether header name `n` equals `name` ignoring ASCII case.
pub open spec fn name_matches(n: Seq<char>, name: Seq<char>) -> bool {
    eq_ignore_ascii_case(bytes_of(n), bytes_of(name))
}

/// The value of the first header whose name matches `name` ignoring ASCII
/// case (HTTP/1.1 §3.2), if any.
pub open spec fn lookup(headers: Seq<(Seq<char>, Seq<char>)>, name: Seq<char>) -> Option<Seq<char>>
    decreases headers.len(),
{
    if headers.len() == 0 {
        None
    } else if name_matches(headers[0].0, name) {
        Some(headers[0].1)
    } else {
        lookup(headers.drop_first(), name)
    }
}

/// Whether some header name matches `name` ignoring ASCII case.
pub open spec fn has_header(headers: Seq<(Seq<char>, Seq<char>)>, name: Seq<char>) -> bool {
    exists|i: int| 0 <= i < headers.len() && name_matches(#[trigger] headers[i].0, name)
}

pub proof fn lemma_lookup_some_iff_has_header(headers: Seq<(Seq<char>, Seq<char>)>, name: Seq<char>)
    ensures
        lookup(headers, name) is Some <==> has_header(headers, name),
    decreases headers.len(),
{
    if headers.len() > 0 {
        lemma_lookup_some_iff_has_header(headers.drop_first(), name);
        if has_header(headers, name) && !name_matches(headers[0].0, name) {
            let i = choose|i: int| 0 <= i < headers.len() && name_matches(#[trigger] headers[i].0, name);
            assert(headers.drop_first()[i - 1] == headers[i]);
        }
        if has_header(headers.drop_first(), name) {
            let i = choose|i: int|
                0 <= i < headers.drop_first().len() && name_matches(#[trigger] headers.drop_first()[i].0, name);
            assert(headers[i + 1] == headers.drop_first()[i]);
        }
    }
}

/// Find a header by name using case-insensitive comparison per HTTP/1.1 §3.2.
/// Returns the value of the first matching header, or `None`.
pub fn find_header<'a>(headers: &'a [(String, String)], name: &str) -> (r: Option<&'a str>)
    ensures
        match r {
            Some(v) => lookup(headers_view(headers@), name@) == Some(v@),
            None => lookup(headers_view(headers@), name@) is None,
        },
{
    let ghost view = headers_view(headers@);
    let mut i: usize = 0;
    proof {
        assert(view.skip(0) =~= view);
    }
    while i < headers.len()
        invariant
            0 <= i <= headers@.len(),
            view == headers_view(headers@),
            lookup(view, name@) == lookup(view.skip(i as int), name@),
        decreases headers@.len() - i,
    {
        proof {
            assert(view.skip(i as int).drop_first() =~= view.skip(i + 1));
            assert(view.skip(i as int)[0] == view[i as int]);
        }
        if str_eq_ignore_ascii_case(headers[i].0.as_str(), name) {
            return Some(headers[i].1.as_str());
        }
        i += 1;
    }
    None
}

} // verus!

verus! {

/// The index of the first header whose name matches `name`, if any.
pub open spec fn first_index(headers: Seq<(Seq<char>, Seq<char>)>, name: Seq<char>) -> Option<int>
    decreases headers.len(),
{
    if headers.len() == 0 {
        None
    } else if name_matches(headers[0].0, name) {
        Some(0)
    } else {
        match first_index(headers.drop_first(), name) {
            Some(i) => Some(i + 1),
            None => None,
        }
    }
}

pub proof fn lemma_first_index(headers: Seq<(Seq<char>, Seq<char>)>, name: Seq<char>)
    ensures
        first_index(headers, name) matches Some(i) ==> {
            &&& 0 <= i < headers.len()
            &&& name_matches(headers[i].0, name)
            &&& lookup(headers, name) == Some(headers[i].1)
        },
        first_index(headers, name) is None ==> lookup(headers, name) is None,
        first_index(headers, name) is Some <==> has_header(headers, name),
    decreases headers.len(),
{
    lemma_lookup_some_iff_has_header(headers, name);
    if headers.len() > 0 && !name_matches(headers[0].0, name) {
        lemma_first_index(headers.drop_first(), name);
    }
}

/// Position of the first header whose name matches `name` ignoring ASCII case.
pub fn find_header_index(headers: &[(String, String)], name: &str) -> (r: Option<usize>)
    ensures
        match r {
            Some(i) => first_index(headers_view(headers@), name@) == Some(i as int),
            None => first_index(headers_view(headers@), name@) is None,
        },
{
    let ghost view = headers_view(headers@);
    let mut i: usize = 0;
    proof {
        assert(view.skip(0) =~= view);
    }
    while i < headers.len()
        invariant
            0 <= i <= headers@.len(),
            view == headers_view(headers@),
            forall|j: int| 0 <= j < i ==> !name_matches(#[trigger] view[j].0, name@),
            first_index(view, name@) == match first_index(view.skip(i as int), name@) {
                Some(k) => Some(k + i),
                None => None,
            },
        decreases headers@.len() - i,
    {
        proof {
            assert(view.skip(i as int).drop_first() =~= view.skip(i + 1));
            assert(view.skip(i as int)[0] == view[i as int]);
        }
        if crate::text::str_eq_ignore_ascii_case(headers[i].0.as_str(), name) {
            return Some(i);
        }
        i += 1;
    }
    None
}

/// Whether some header name matches `name` ignoring ASCII case.
pub fn contains_header(headers: &[(String, String)], name: &str) -> (r: bool)
    ensures
        r == has_header(headers_view(headers@), name@),
{
    proof {
        lemma_lookup_some_iff_has_header(headers_view(headers@), name@);
    }
    find_header(headers, name).is_some()
}

} // verus!

verus! {

/// Header lookup ignores the case of the name asked for: two names that are
/// equal ignoring ASCII case find the same value.
pub proof fn law_lookup_ignores_name_case(headers: Seq<(Seq<char>, Seq<char>)>, a: Seq<char>, b: Seq<char>)
    requires
        eq_ignore_ascii_case(bytes_of(a), bytes_of(b)),
    ensures
        lookup(headers, a) == lookup(headers, b),
    decreases headers.len(),
{
    if headers.len() > 0 {
        let n = bytes_of(headers[0].0);
        let x = bytes_of(a);
        let y = bytes_of(b);
        assert(name_matches(headers[0].0, a) <==> name_matches(headers[0].0, b)) by {
            if name_matches(headers[0].0, a) {
                assert forall|i: int| 0 <= i < n.len() implies crate::text::ascii_lower(#[trigger] n[i])
                    == crate::text::ascii_lower(y[i]) by {
                    assert(crate::text::ascii_lower(n[i]) == crate::text::ascii_lower(x[i]));
                    assert(crate::text::ascii_lower(x[i]) == crate::text::ascii_lower(y[i]));
                }
            }
            if name_matches(headers[0].0, b) {
                assert forall|i: int| 0 <= i < n.len() implies crate::text::ascii_lower(#[trigger] n[i])
                    == crate::text::ascii_lower(x[i]) by {
                    assert(crate::text::ascii_lower(n[i]) == crate::text::ascii_lower(y[i]));
                    assert(crate::text::ascii_lower(x[i]) == crate::text::ascii_lower(y[i]));
                }
            }
        }
        law_lookup_ignores_name_case(headers.drop_first(), a, b);
    }
}

} // verus!
