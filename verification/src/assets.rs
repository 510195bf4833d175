//! Static-asset request resolution: normalizing a request path, deciding
//! between the asset, the single-page fallback and a miss, and choosing the
//! content type through the `mime_guess` table.

use vstd::prelude::*;

verus! {

/// The mime type `mime_guess` assigns to a path: a pure lookup in its
/// static extension table, a function of the path alone.
pub uninterp spec fn mime_of(path: Seq<char>) -> Seq<char>;

/// Relies on `mime_guess::from_path` and `MimeGuess::first_or_octet_stream`:
/// the guess is a lookup keyed on the path's extension alone, and when
/// nothing matches, "application/octet-stream" comes back, so the result is
/// a function of the path and never empty.
#[verifier::external_body]
fn guess_mime(path: &str) -> (r: String)
    ensures
        r@ == mime_of(path@),
        r@.len() > 0,
{
    mime_guess::from_path(path).first_or_octet_stream().as_ref().to_string()
}

/// The path with every leading '/' removed.
pub open spec fn strip_slashes(s: Seq<char>) -> Seq<char>
    decreases s.len(),
{
    if s.len() > 0 && s[0] == '/' {
        strip_slashes(s.drop_first())
    } else {
        s
    }
}

/// The asset path a request resolves to: leading slashes dropped, and the
/// bare root mapped to the landing page.
pub open spec fn route_model(s: Seq<char>) -> Seq<char> {
    if strip_slashes(s).len() == 0 {
        "index.html"@
    } else {
        strip_slashes(s)
    }
}

/// Normalizes a raw request path to the asset path to look up.
pub fn route_path(raw: &str) -> (r: String)
    ensures
        r@ == route_model(raw@),
{
    let n = raw.unicode_len();
    let mut i: usize = 0;
    assert(raw@.subrange(0, n as int) =~= raw@);
    while i < n && raw.get_char(i) == '/'
        invariant
            i <= n,
            n == raw@.len(),
            strip_slashes(raw@) == strip_slashes(raw@.subrange(i as int, n as int)),
        decreases n - i,
    {
        proof {
            let cur = raw@.subrange(i as int, n as int);
            assert(cur[0] == '/');
            assert(cur.drop_first() =~= raw@.subrange(i as int + 1, n as int));
        }
        i += 1;
    }
    if i == n {
        assert(raw@.subrange(i as int, n as int) =~= Seq::<char>::empty());
        String::from_str("index.html")
    } else {
        let rest = raw.substring_char(i, n);
        assert(strip_slashes(raw@.subrange(i as int, n as int))
            == raw@.subrange(i as int, n as int));
        rest.to_owned()
    }
}

/// How to answer a static request.
pub enum AssetDecision {
    /// Serve the asset at the requested path with this content type.
    Found { content_type: String },
    /// The path is unknown: serve the landing page (single-page routing).
    IndexFallback,
    /// Neither the path nor the landing page exists.
    Missing,
}

/// Decides how a static request for the (already normalized) path is
/// answered, given whether the asset and the landing page exist: the asset
/// itself when present, with the content type `mime_guess` assigns it; the
/// landing page as fallback; otherwise a miss.
pub fn decide_response(path: &str, asset_exists: bool, index_exists: bool) -> (d: AssetDecision)
    ensures
        asset_exists ==> (d matches AssetDecision::Found { content_type }
            && content_type@ == mime_of(path@)),
        !asset_exists && index_exists ==> d is IndexFallback,
        !asset_exists && !index_exists ==> d is Missing,
{
    if asset_exists {
        AssetDecision::Found { content_type: guess_mime(path) }
    } else if index_exists {
        AssetDecision::IndexFallback
    } else {
        AssetDecision::Missing
    }
}

/// The content type the relay serves the (raw) request path with when the
/// asset exists.
pub fn content_type_for(raw: &str) -> (r: String)
    ensures
        r@ == mime_of(route_model(raw@)),
{
    let path = route_path(raw);
    guess_mime(path.as_str())
}

} // verus!
