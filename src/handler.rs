//! Decisions of the static-file handler: which file a url names and what
//! reply a file (or its absence) gives. Reading the file happens elsewhere.
use vstd::prelude::*;
use vstd::string::StringSliceAdditionalSpecFns;
use crate::byte_map::ByteMap;
use crate::response::{default_headers, opt_bytes, HttpResponse, HttpStatus};
use crate::text::{before_first, copy_range, ends_with, has_suffix, split_all, split_once, split_pattern};

verus! {

/// The first path segment of a url (empty when there is none).
pub open spec fn static_segment(url: Seq<u8>) -> Seq<u8> {
    let segs = split_all(before_first(url, 63), seq![47u8]);
    if segs.len() > 1 {
        segs[1]
    } else {
        Seq::empty()
    }
}

/// The file that a url names: its first path segment, `index.html` when that is empty.
pub open spec fn static_target(url: Seq<u8>) -> Seq<u8> {
    let seg = static_segment(url);
    if seg.len() == 0 {
        "index.html".spec_bytes()
    } else {
        seg
    }
}

/// The content type served for a file name.
pub open spec fn static_content_type(name: Seq<u8>) -> Seq<u8> {
    if ends_with(name, ".css".spec_bytes()) {
        "text/css".spec_bytes()
    } else if ends_with(name, ".js".spec_bytes()) {
        "text/javascript".spec_bytes()
    } else {
        "text/html".spec_bytes()
    }
}

/// Serves files by the first segment of the url.
pub struct StaticHandler;

impl StaticHandler {
    /// The name of the file that `url` asks for.
    pub fn target(url: &[u8]) -> (r: Vec<u8>)
        ensures
            r@ == static_target(url@),
    {
        let (path, _query) = split_once(url, 63);
        let slash: Vec<u8> = vec![47u8];
        assert(slash@ =~= seq![47u8]);
        let segs = split_pattern(path.as_slice(), slash.as_slice());
        let seg: Vec<u8> = if segs.len() > 1 {
            assert(segs@.map_values(|v: Vec<u8>| v@)[1] == segs@[1]@);
            let c = copy_range(segs[1].as_slice(), 0, segs[1].len());
            assert(c@ =~= segs@[1]@);
            c
        } else {
            Vec::new()
        };
        if seg.len() == 0 {
            let d = "index.html".as_bytes();
            let c = copy_range(d, 0, d.len());
            assert(c@ =~= d@);
            c
        } else {
            seg
        }
    }

    /// The content type for a file name.
    pub fn content_type(name: &[u8]) -> (r: &'static str)
        ensures
            r.spec_bytes() == static_content_type(name@),
    {
        if has_suffix(name, ".css".as_bytes()) {
            "text/css"
        } else if has_suffix(name, ".js".as_bytes()) {
            "text/javascript"
        } else {
            "text/html"
        }
    }

    /// The reply for `url`, given the contents of the file it names
    /// (`target`) and of the not-found page, where they could be read. The
    /// index (`/`) is a `200` HTML reply, with no body when the index file is
    /// missing; any other file is `200` with its contents and content type
    /// when found, else `404` with the not-found page.
    pub fn respond(url: &[u8], contents: Option<Vec<u8>>, missing_page: Option<Vec<u8>>) -> (r:
        HttpResponse)
        ensures
            r.wf(),
            static_segment(url@).len() == 0 ==> r.spec_status() == HttpStatus::Success
                && r.spec_body() == opt_bytes(contents) && r.spec_headers()@
                == default_headers().insert("Content-Type".spec_bytes(), "text/html".spec_bytes()),
            static_segment(url@).len() != 0 && contents.is_some() ==> r.spec_status()
                == HttpStatus::Success && r.spec_body() == opt_bytes(contents)
                && r.spec_headers()@ == default_headers().insert(
                "Content-Type".spec_bytes(),
                static_content_type(static_target(url@)),
            ),
            static_segment(url@).len() != 0 && contents.is_none() ==> r.spec_status()
                == HttpStatus::NotFound && r.spec_body() == opt_bytes(missing_page),
    {
        let name = StaticHandler::target(url);
        let index = StaticHandler::is_index(url);
        if index || contents.is_some() {
            let ct: &str = if index {
                "text/html"
            } else {
                StaticHandler::content_type(name.as_slice())
            };
            let mut headers = ByteMap::new();
            let k = "Content-Type".as_bytes();
            let v = ct.as_bytes();
            let kc = copy_range(k, 0, k.len());
            let vc = copy_range(v, 0, v.len());
            assert(kc@ =~= k@);
            assert(vc@ =~= v@);
            headers.insert(kc, vc);
            let r = HttpResponse::new(HttpStatus::Success, Some(headers), contents);
            assert(r.spec_headers()@ =~= default_headers().insert(
                "Content-Type".spec_bytes(),
                ct.spec_bytes(),
            ));
            r
        } else {
            HttpResponse::not_found(missing_page)
        }
    }

    /// Whether `url` asks for the index, that is, has an empty first path segment.
    pub fn is_index(url: &[u8]) -> (r: bool)
        ensures
            r == (static_segment(url@).len() == 0),
    {
        let (path, _query) = split_once(url, 63);
        let slash: Vec<u8> = vec![47u8];
        assert(slash@ =~= seq![47u8]);
        let segs = split_pattern(path.as_slice(), slash.as_slice());
        if segs.len() > 1 {
            assert(segs@.map_values(|v: Vec<u8>| v@)[1] == segs@[1]@);
            segs[1].len() == 0
        } else {
            true
        }
    }
}

} // verus!
