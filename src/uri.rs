//! Builds a URI from a location and query parameters.
use vstd::prelude::*;
use warp::http::Uri;
use vstd::string::StringSliceAdditionalSpecFns;
use crate::text::str_eq;

verus! {

/// The URI type of http, as warp re-exports it; carried through opaque.
#[verifier::external_type_specification]
#[verifier::external_body]
pub struct ExUri(Uri);

/// A byte that percent-encoding leaves as it is: an ASCII letter or digit,
/// `-`, `.`, `_` or `~`.
pub open spec fn is_unreserved(b: u8) -> bool {
    (48 <= b <= 57) || (65 <= b <= 90) || (97 <= b <= 122) || b == 45 || b == 46 || b == 95 || b
        == 126
}

/// The upper-case hexadecimal digit of a value below 16.
pub open spec fn hex_digit(d: u8) -> char {
    if d < 10 {
        (48 + d) as u8 as char
    } else {
        (55 + d) as u8 as char
    }
}

/// The percent-encoding of one byte.
pub open spec fn encode_byte(b: u8) -> Seq<char> {
    if is_unreserved(b) {
        seq![b as char]
    } else {
        seq!['%', hex_digit(b / 16), hex_digit(b % 16)]
    }
}

/// The percent-encoding of a byte sequence.
pub open spec fn percent_encoded(bs: Seq<u8>) -> Seq<char>
    decreases bs.len(),
{
    if bs.len() == 0 {
        Seq::empty()
    } else {
        percent_encoded(bs.drop_last()) + encode_byte(bs.last())
    }
}

/// Relies on urlencoding::encode: each byte of the UTF-8 form of `value`
/// that is not an ASCII letter or digit, `-`, `.`, `_` or `~` becomes `%`
/// and two upper-case hexadecimal digits; the others stay.
#[verifier::external_body]
fn url_encode(value: &str) -> (r: String)
    ensures
        r@ == percent_encoded(value.spec_bytes()),
{
    urlencoding::encode(value).into_owned()
}

/// Relies on http's uri::Builder (through warp): builds the URI whose path
/// and query are `s`, or `None` when `s` is not a valid path and query.
#[verifier::external_body]
fn uri_from_path_and_query(s: &String) -> (r: Option<Uri>) {
    warp::http::uri::Builder::new().path_and_query(s.as_str()).build().ok()
}

/// Position of the first parameter named `k`, or -1 when there is none.
pub open spec fn key_position(q: Seq<(Seq<char>, Seq<char>)>, k: Seq<char>) -> int
    decreases q.len(),
{
    if q.len() == 0 {
        -1
    } else if q[0].0 == k {
        0
    } else if key_position(q.drop_first(), k) < 0 {
        -1
    } else {
        key_position(q.drop_first(), k) + 1
    }
}

/// The parameters with `k` set to `v`: in place when `k` is there, else
/// appended.
pub open spec fn set_param(q: Seq<(Seq<char>, Seq<char>)>, k: Seq<char>, v: Seq<char>) -> Seq<(Seq<char>, Seq<char>)> {
    if key_position(q, k) < 0 {
        q.push((k, v))
    } else {
        q.update(key_position(q, k), (k, v))
    }
}

/// No two parameters share a name.
pub open spec fn keys_unique(q: Seq<(Seq<char>, Seq<char>)>) -> bool {
    forall|a: int, b: int| 0 <= a < b < q.len() ==> q[a].0 != q[b].0
}

/// The query part: `?` before the first parameter, `&` before the others.
pub open spec fn query_text(q: Seq<(Seq<char>, Seq<char>)>) -> Seq<char>
    decreases q.len(),
{
    if q.len() == 0 {
        Seq::empty()
    } else {
        query_text(q.drop_last()) + (if q.len() == 1 {
            "?"@
        } else {
            "&"@
        }) + q.last().0 + "="@ + q.last().1
    }
}

/// A URI under construction: its location and its query parameters, the
/// values percent-encoded.
pub struct Builder {
    query: Vec<(String, String)>,
    location: String,
}

/// The characters of both strings of each pair.
pub open spec fn params_view(v: Seq<(String, String)>) -> Seq<(Seq<char>, Seq<char>)> {
    v.map_values(|p: (String, String)| (p.0@, p.1@))
}

impl View for Builder {
    type V = (Seq<char>, Seq<(Seq<char>, Seq<char>)>);

    closed spec fn view(&self) -> (Seq<char>, Seq<(Seq<char>, Seq<char>)>) {
        (self.location@, params_view(self.query@))
    }
}

proof fn lemma_key_position(q: Seq<(Seq<char>, Seq<char>)>, k: Seq<char>)
    ensures
        -1 <= key_position(q, k) < q.len(),
        key_position(q, k) >= 0 ==> q[key_position(q, k)].0 == k,
        forall|j: int| 0 <= j < q.len() && (key_position(q, k) < 0 || j < key_position(q, k)) ==> q[j].0 != k,
    decreases q.len(),
{
    if q.len() > 0 && q[0].0 != k {
        lemma_key_position(q.drop_first(), k);
        assert forall|j: int| 0 <= j < q.len() && (key_position(q, k) < 0 || j < key_position(q, k)) implies q[j].0 != k by {
            if j > 0 {
                assert(q[j] == q.drop_first()[j - 1]);
            }
        }
    }
}

impl Builder {
    pub fn new(location: &str) -> (r: Self)
        ensures
            r@ == (location@, Seq::<(Seq<char>, Seq<char>)>::empty()),
            keys_unique(r@.1),
    {
        let r = Self { location: String::from_str(location), query: Vec::new() };
        assert(params_view(r.query@) =~= Seq::<(Seq<char>, Seq<char>)>::empty());
        r
    }

    /// Sets the parameter `key` to the percent-encoding of `value`.
    pub fn query_add(self, key: &str, value: &str) -> (r: Self)
        ensures
            r@.0 == self@.0,
            r@.1 == set_param(self@.1, key@, percent_encoded(value.spec_bytes())),
            keys_unique(self@.1) ==> keys_unique(r@.1),
    {
        let ghost q = params_view(self.query@);
        let mut b = self;
        let encoded = url_encode(value);
        proof {
            lemma_key_position(q, key@);
        }
        let mut i: usize = 0;
        while i < b.query.len()
            invariant
                i <= b.query@.len(),
                q == params_view(b.query@),
                q == self@.1,
                b.location@ == self@.0,
                encoded@ == percent_encoded(value.spec_bytes()),
                forall|j: int| 0 <= j < i ==> q[j].0 != key@,
            decreases b.query@.len() - i,
        {
            if str_eq(b.query[i].0.as_str(), key) {
                assert(q[i as int].0 == key@);
                proof {
                    lemma_key_position(q, key@);
                }
                assert(key_position(q, key@) == i);
                let entry = (String::from_str(key), encoded);
                b.query.set(i, entry);
                let ghost r1 = q.update(i as int, (key@, entry.1@));
                assert(params_view(b.query@) =~= r1);
                assert forall|x: int| 0 <= x < q.len() implies r1[x].0 == q[x].0 by {}

                return b;
            }
            i = i + 1;
        }
        proof {
            lemma_key_position(q, key@);
        }
        assert(key_position(q, key@) < 0) by {
            if key_position(q, key@) >= 0 {
                assert(q[key_position(q, key@)].0 == key@);
            }
        }
        b.query.push((String::from_str(key), encoded));
        let ghost r2 = q.push((key@, percent_encoded(value.spec_bytes())));
        assert(params_view(b.query@) =~= r2);
        assert forall|x: int, y: int| keys_unique(q) && 0 <= x < y < r2.len() implies r2[x].0 != r2[y].0 by {
            if y == q.len() {
                assert(r2[x] == q[x]);
            }
        }
        b
    }

    /// The location followed by the query.
    pub fn uri_string(&self) -> (r: String)
        ensures
            r@ == self@.0 + query_text(self@.1),
    {
        let ghost q = params_view(self.query@);
        let mut uri = self.location.clone();
        let mut i: usize = 0;
        while i < self.query.len()
            invariant
                i <= self.query@.len(),
                q == params_view(self.query@),
                uri@ == self.location@ + query_text(q.subrange(0, i as int)),
            decreases self.query@.len() - i,
        {
            let ghost sub = q.subrange(0, i + 1);
            assert(sub.drop_last() == q.subrange(0, i as int));
            if i == 0 {
                uri.append("?");
            } else {
                uri.append("&");
            }
            uri.append(self.query[i].0.as_str());
            uri.append("=");
            uri.append(self.query[i].1.as_str());
            assert(uri@ =~= self.location@ + query_text(sub));
            i = i + 1;
        }
        assert(q.subrange(0, q.len() as int) == q);
        uri
    }

    /// The URI of the location and query, or `None` when they do not make
    /// a valid path and query.
    pub fn build(self) -> Option<Uri> {
        let text = self.uri_string();
        uri_from_path_and_query(&text)
    }
}

} // verus!
