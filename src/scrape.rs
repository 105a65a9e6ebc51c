use vstd::prelude::*;
use crate::data::EmbedInfo;
use crate::text::{chars_of, starts_with_at};

verus! {

/// What group 1 of the first match of the regular expression `pattern` captures in `body`
/// (`None` when nothing matches, when group 1 takes no part in that match, or when the
/// pattern is refused).
pub uninterp spec fn first_group(pattern: Seq<char>, body: Seq<char>) -> Option<Seq<char>>;

/// What groups 1 and 2 capture in each successive match of `pattern` in `body`, in order
/// (empty when the pattern is refused).
pub uninterp spec fn all_group_pairs(pattern: Seq<char>, body: Seq<char>) -> Seq<(Seq<char>, Seq<char>)>;

/// Relies on `regex::Regex::new` and `Regex::captures`: the text of group 1 of the first
/// match, if there is a match.
#[verifier::external_body]
fn first_capture(pattern: &str, body: &str) -> (r: Option<String>)
    ensures
        r is Some <==> first_group(pattern@, body@) is Some,
        r is Some ==> first_group(pattern@, body@) == Some(r->0@),
{
    let re = match regex::Regex::new(pattern) {
        Ok(re) => re,
        Err(_) => return None,
    };
    re.captures(body).and_then(|c| c.get(1)).map(|m| m.as_str().to_string())
}

/// Relies on `regex::Regex::new` and `Regex::captures_iter`: groups 1 and 2 of every
/// match, in order; a group that took no part counts as empty.
#[verifier::external_body]
fn all_capture_pairs(pattern: &str, body: &str) -> (r: Vec<(String, String)>)
    ensures
        pair_views(r@) == all_group_pairs(pattern@, body@),
{
    let re = match regex::Regex::new(pattern) {
        Ok(re) => re,
        Err(_) => return Vec::new(),
    };
    re.captures_iter(body)
        .map(|c| {
            (
                c.get(1).map_or(String::new(), |m| m.as_str().to_string()),
                c.get(2).map_or(String::new(), |m| m.as_str().to_string()),
            )
        })
        .collect()
}

/// The character sequences of string pairs.
pub open spec fn pair_views(v: Seq<(String, String)>) -> Seq<(Seq<char>, Seq<char>)> {
    v.map_values(|p: (String, String)| (p.0@, p.1@))
}

/// The character sequence of an optional string.
pub open spec fn opt_view(o: Option<String>) -> Option<Seq<char>> {
    match o {
        Some(s) => Some(s@),
        None => None,
    }
}

/// The value of the last pair whose key is `key`.
pub open spec fn last_value(pairs: Seq<(Seq<char>, Seq<char>)>, key: Seq<char>) -> Option<Seq<char>>
    decreases pairs.len(),
{
    if pairs.len() == 0 {
        None
    } else if pairs.last().0 == key {
        Some(pairs.last().1)
    } else {
        last_value(pairs.drop_last(), key)
    }
}

/// The page title: what `<title>` holds, or empty.
pub open spec fn title_value(capture: Option<Seq<char>>) -> Seq<char> {
    match capture {
        Some(t) => t,
        None => Seq::empty(),
    }
}

/// The card title: the last `og:title` if it is not empty, else the page title.
pub open spec fn card_title(pairs: Seq<(Seq<char>, Seq<char>)>, page_title: Option<Seq<char>>) -> Seq<char> {
    match last_value(pairs, "title"@) {
        Some(t) if t.len() > 0 => t,
        _ => title_value(page_title),
    }
}

/// The pattern of a page title.
pub fn title_pattern() -> (r: &'static str)
    ensures
        r@ == "<title>(.*)</title>"@,
{
    "<title>(.*)</title>"
}

/// The pattern of an Open Graph property.
pub fn property_pattern() -> (r: &'static str)
    ensures
        r@ == "property=\"og:([^\"]*)\" content=\"([^\"]*)\""@,
{
    "property=\"og:([^\"]*)\" content=\"([^\"]*)\""
}

fn is_key(s: &String, key: &str) -> (r: bool)
    ensures
        r == (s@ == key@),
{
    let v = chars_of(s.as_str());
    let n = key.unicode_len();
    if v.len() != n {
        return false;
    }
    let r = starts_with_at(&v, 0, key);
    proof {
        assert(v@ == s@);
        assert(v@.subrange(0, n as int) =~= v@);
    }
    r
}

/// The title of a page from what `<title>` captured.
pub fn title_from_capture(capture: Option<String>) -> (r: String)
    ensures
        r@ == title_value(opt_view(capture)),
{
    match capture {
        Some(t) => t,
        None => String::new(),
    }
}

/// The link-card metadata from the Open Graph `(property, content)` pairs of a page, in
/// order, and what its `<title>` captured: for each property the last value wins, and
/// an absent or empty `og:title` gives way to the page title.
pub fn ogp_from_pairs(pairs: &Vec<(String, String)>, page_title: Option<String>) -> (r: EmbedInfo)
    ensures
        r.title@ == card_title(pair_views(pairs@), opt_view(page_title)),
        opt_view(r.image) == last_value(pair_views(pairs@), "image"@),
        opt_view(r.description) == last_value(pair_views(pairs@), "description"@),
        opt_view(r.site_name) == last_value(pair_views(pairs@), "site_name"@),
{
    let mut title: Option<String> = None;
    let mut image: Option<String> = None;
    let mut description: Option<String> = None;
    let mut site_name: Option<String> = None;
    let mut k: usize = 0;
    while k < pairs.len()
        invariant
            k <= pairs@.len(),
            opt_view(title) == last_value(pair_views(pairs@.subrange(0, k as int)), "title"@),
            opt_view(image) == last_value(pair_views(pairs@.subrange(0, k as int)), "image"@),
            opt_view(description) == last_value(
                pair_views(pairs@.subrange(0, k as int)),
                "description"@,
            ),
            opt_view(site_name) == last_value(pair_views(pairs@.subrange(0, k as int)), "site_name"@),
        decreases pairs@.len() - k,
    {
        let ghost ps = pair_views(pairs@.subrange(0, k + 1));
        proof {
            assert(ps.drop_last() =~= pair_views(pairs@.subrange(0, k as int)));
            assert(ps.last() == (pairs@[k as int].0@, pairs@[k as int].1@));
        }
        proof {
            reveal_strlit("title");
            reveal_strlit("image");
            reveal_strlit("description");
            reveal_strlit("site_name");
            assert("title"@ =~= seq!['t', 'i', 't', 'l', 'e']);
            assert("image"@ =~= seq!['i', 'm', 'a', 'g', 'e']);
            assert("description"@.len() == 11);
            assert("site_name"@.len() == 9);
            assert("title"@ != "image"@) by {
                assert("title"@[0] != "image"@[0]);
            }
        }
        let key = &pairs[k].0;
        let value = &pairs[k].1;
        if is_key(key, "title") {
            title = Some(value.clone());
        } else if is_key(key, "image") {
            image = Some(value.clone());
        } else if is_key(key, "description") {
            description = Some(value.clone());
        } else if is_key(key, "site_name") {
            site_name = Some(value.clone());
        }
        k = k + 1;
    }
    proof {
        assert(pairs@.subrange(0, pairs@.len() as int) =~= pairs@);
    }
    let title = match title {
        Some(t) => {
            if t.as_str().unicode_len() > 0 {
                t
            } else {
                title_from_capture(page_title)
            }
        },
        None => title_from_capture(page_title),
    };
    EmbedInfo { title, image, description, site_name }
}

/// The title of an HTML page: what its first `<title>...</title>` holds, or empty.
pub fn extract_title(body: &str) -> (r: String)
    ensures
        r@ == title_value(first_group("<title>(.*)</title>"@, body@)),
{
    let capture = first_capture(title_pattern(), body);
    title_from_capture(capture)
}

/// The link-card metadata of an HTML page, from its Open Graph properties and its title.
pub fn extract_ogp(body: &str) -> (r: EmbedInfo)
    ensures
        ({
            let pairs = all_group_pairs("property=\"og:([^\"]*)\" content=\"([^\"]*)\""@, body@);
            &&& r.title@ == card_title(pairs, first_group("<title>(.*)</title>"@, body@))
            &&& opt_view(r.image) == last_value(pairs, "image"@)
            &&& opt_view(r.description) == last_value(pairs, "description"@)
            &&& opt_view(r.site_name) == last_value(pairs, "site_name"@)
        }),
{
    let pairs = all_capture_pairs(property_pattern(), body);
    let capture = first_capture(title_pattern(), body);
    ogp_from_pairs(&pairs, capture)
}

} // verus!
