use vstd::prelude::*;

verus! {

/// The fixed, browser-like request identity used for the archive fetch:
/// header names paired with their values, in insertion order.
pub open spec fn spec_request_headers() -> Seq<(Seq<char>, Seq<char>)> {
    seq![
        ("Accept"@, "text/html,application/xhtml+xml,application/xml;q=0.9,image/avif,image/webp,*/*;q=0.8"@),
        ("Accept-Encoding"@, "gzip, deflate, br"@),
        ("Accept-Language"@, "en-US;q=0.7,en;q=0.3"@),
        ("Connection"@, "keep-alive"@),
        ("DNT"@, "1"@),
        ("Host"@, "files.aero-nav.com"@),
        ("Referer"@, "http://files.aero-nav.com/"@),
        ("Sec-Fetch-Dest"@, "document"@),
        ("Sec-Fetch-Mode"@, "navigate"@),
        ("Sec-Fetch-Site"@, "cross-site"@),
        ("Sec-Fetch-User"@, "?1"@),
        ("Upgrade-Insecure-Requests"@, "1"@),
        ("User-Agent"@, "Mozilla/5.0 (Windows NT 10.0; Win64; x64; rv:108.0) Gecko/20100101 Firefox/108.0"@),
    ]
}

/// Builds the archive retriever's fixed header set as plain name/value pairs.
/// The caller turns them into whatever its HTTP client expects.
pub fn request_headers() -> (h: Vec<(String, String)>)
    ensures
        h.deep_view() == spec_request_headers(),
{
    let mut h: Vec<(String, String)> = Vec::new();
    h.push((
        "Accept".to_owned(),
        "text/html,application/xhtml+xml,application/xml;q=0.9,image/avif,image/webp,*/*;q=0.8".to_owned(),
    ));
    h.push(("Accept-Encoding".to_owned(), "gzip, deflate, br".to_owned()));
    h.push(("Accept-Language".to_owned(), "en-US;q=0.7,en;q=0.3".to_owned()));
    h.push(("Connection".to_owned(), "keep-alive".to_owned()));
    h.push(("DNT".to_owned(), "1".to_owned()));
    h.push(("Host".to_owned(), "files.aero-nav.com".to_owned()));
    h.push(("Referer".to_owned(), "http://files.aero-nav.com/".to_owned()));
    h.push(("Sec-Fetch-Dest".to_owned(), "document".to_owned()));
    h.push(("Sec-Fetch-Mode".to_owned(), "navigate".to_owned()));
    h.push(("Sec-Fetch-Site".to_owned(), "cross-site".to_owned()));
    h.push(("Sec-Fetch-User".to_owned(), "?1".to_owned()));
    h.push(("Upgrade-Insecure-Requests".to_owned(), "1".to_owned()));
    h.push((
        "User-Agent".to_owned(),
        "Mozilla/5.0 (Windows NT 10.0; Win64; x64; rv:108.0) Gecko/20100101 Firefox/108.0".to_owned(),
    ));
    proof {
        assert(h.deep_view() =~= spec_request_headers());
    }
    h
}

} // verus!
