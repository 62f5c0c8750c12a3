use vstd::prelude::*;
use vstd::string::*;

verus! {

/// The raw-content address of a file on a branch of a repository.
pub open spec fn status_url_of(
    org: Seq<char>,
    repo: Seq<char>,
    branch: Seq<char>,
    path: Seq<char>,
) -> Seq<char> {
    "https://raw.githubusercontent.com/"@ + org + "/"@ + repo + "/"@ + branch + "/"@ + path
}

/// Joins the segments of the status file's raw-content address with slashes.
pub fn sync_status_url(org: &str, repo: &str, branch: &str, path: &str) -> (r: String)
    ensures
        r@ == status_url_of(org@, repo@, branch@, path@),
{
    let mut url = String::from_str("https://raw.githubusercontent.com/");
    url.append(org);
    url.append("/");
    url.append(repo);
    url.append("/");
    url.append(branch);
    url.append("/");
    url.append(path);
    url
}

} // verus!
