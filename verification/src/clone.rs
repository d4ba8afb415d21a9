//! The decisions of a clone: the arguments of the shallow `git clone`, and
//! the remotes that the sparse repository takes over from the dense one.
//! Running Git is left to the caller.

use vstd::prelude::*;
use crate::cachekeys::{parse_url, set_url_path, url_parts, url_with_path};
use crate::text::{eq_ignore_ascii_case, equals_ignore_ascii_case, views};

verus! {

/// The arguments of the `git clone` that makes a sparse repository: no
/// checkout, no tags, the given branch, history since the given date, only
/// that branch unless branches are copied, then source and destination.
pub open spec fn clone_argument_texts(
    branch: Seq<char>,
    shallow_since: Seq<char>,
    copy_branches: bool,
    source: Seq<char>,
    destination: Seq<char>,
) -> Seq<Seq<char>> {
    seq!["clone"@, "--no-checkout"@, "--no-tags"@, "-b"@, branch, "--shallow-since="@ + shallow_since]
        + if copy_branches {
        Seq::empty()
    } else {
        seq!["--single-branch"@]
    } + seq![source, destination]
}

/// The arguments of the `git clone` that makes a sparse repository.
pub fn clone_arguments(
    branch: &str,
    shallow_since: &str,
    copy_branches: bool,
    source: &str,
    destination: &str,
) -> (res: Vec<String>)
    ensures
        views(res@) == clone_argument_texts(branch@, shallow_since@, copy_branches, source@, destination@),
{
    let mut args: Vec<String> = Vec::new();
    args.push(String::from_str("clone"));
    args.push(String::from_str("--no-checkout"));
    args.push(String::from_str("--no-tags"));
    args.push(String::from_str("-b"));
    args.push(String::from_str(branch));
    args.push(String::from_str("--shallow-since=").concat(shallow_since));
    if !copy_branches {
        args.push(String::from_str("--single-branch"));
    }
    args.push(String::from_str(source));
    args.push(String::from_str(destination));
    proof {
        assert(views(args@) =~= clone_argument_texts(
            branch@,
            shallow_since@,
            copy_branches,
            source@,
            destination@,
        ));
    }
    args
}

/// The text of the URL that a text parses to (`url::Url::as_str`).
pub uninterp spec fn url_text(text: Seq<char>) -> Seq<char>;

/// Calls `url::Url::parse` and gives back the text of the result. Claimed:
/// a parse error exactly where `url_parts` has none, and otherwise
/// `url_text` of the text.
#[verifier::external_body]
fn serialize_url(text: &str) -> (res: Result<String, url::ParseError>)
    ensures
        match res {
            Ok(u) => url_parts(text@) is Some && u@ == url_text(text@),
            Err(_) => url_parts(text@) is None,
        },
{
    Ok(url::Url::parse(text)?.as_str().to_string())
}

/// Why a remote of the dense repository cannot be taken over.
#[derive(Debug)]
pub enum RemoteError {
    /// The remote has no URL.
    NoUrl,
    /// The fetch URL does not parse.
    InvalidFetchUrl(url::ParseError),
    /// The push URL does not parse.
    InvalidPushUrl(url::ParseError),
    /// The fetch URL has no host.
    NoHost,
}

/// The host whose fetch URLs go through the read-only mirror.
pub open spec fn mirrored_host(host: Seq<char>) -> bool {
    eq_ignore_ascii_case(host, "git.twitter.biz"@)
}

/// Whether a path already starts with `/ro`.
pub open spec fn starts_read_only(path: Seq<char>) -> bool {
    path.len() >= 3 && path.subrange(0, 3) == "/ro"@
}

/// The fetch and push URLs with which the sparse repository takes over a
/// remote of the dense one: the push URL is the fetch URL where the remote
/// has none; both must parse and the fetch URL must have a host; the fetch
/// path of the mirrored host gets a leading `/ro` where it has none.
pub fn sparse_remote_urls(fetch: Option<&str>, push: Option<&str>) -> (res: Result<
    (String, String),
    RemoteError,
>)
    requires
        fetch matches Some(f) ==> f@.len() <= crate::cachekeys::ENDPOINT_TEXT_LIMIT,
    ensures
        match fetch {
            None => res matches Err(RemoteError::NoUrl),
            Some(f) => {
                let p = match push {
                    Some(p) => p@,
                    None => f@,
                };
                match url_parts(f@) {
                    None => res matches Err(RemoteError::InvalidFetchUrl(_)),
                    Some((_, host, path)) => match url_parts(p) {
                        None => res matches Err(RemoteError::InvalidPushUrl(_)),
                        Some(_) => match host {
                            None => res matches Err(RemoteError::NoHost),
                            Some(h) => res matches Ok((fu, pu)) && pu@ == url_text(p) && fu@ == if mirrored_host(h)
                                && !starts_read_only(path) {
                                url_with_path(f@, "/ro"@ + path)
                            } else {
                                url_text(f@)
                            },
                        },
                    },
                }
            },
        },
{
    let f = match fetch {
        Some(f) => f,
        None => {
            return Err(RemoteError::NoUrl);
        },
    };
    let p = match push {
        Some(p) => p,
        None => f,
    };
    let (_scheme, host, path) = match parse_url(f) {
        Ok(parts) => parts,
        Err(e) => {
            return Err(RemoteError::InvalidFetchUrl(e));
        },
    };
    let push_text = match serialize_url(p) {
        Ok(u) => u,
        Err(e) => {
            return Err(RemoteError::InvalidPushUrl(e));
        },
    };
    let host = match host {
        Some(h) => h,
        None => {
            return Err(RemoteError::NoHost);
        },
    };
    let n = path.as_str().unicode_len();
    let read_only = if n >= 3 {
        let head = path.as_str().substring_char(0, 3);
        crate::text::str_equal(head, "/ro")
    } else {
        false
    };
    proof {
        reveal_strlit("/ro");
    }
    if equals_ignore_ascii_case(host.as_str(), "git.twitter.biz") && !read_only {
        let new_path = String::from_str("/ro").concat(path.as_str());
        proof {
            crate::cachekeys::lemma_byte_len_bound(f@);
        }
        match set_url_path(f, new_path.as_str()) {
            Ok(u) => Ok((u, push_text)),
            Err(e) => Err(RemoteError::InvalidFetchUrl(e)),
        }
    } else {
        match serialize_url(f) {
            Ok(u) => Ok((u, push_text)),
            Err(e) => Err(RemoteError::InvalidFetchUrl(e)),
        }
    }
}

} // verus!
