//! The static-file handler's part that does not touch the file system.
use crate::request::Request;
use vstd::prelude::*;

verus! {

/// `s` without its leading `/` characters.
pub open spec fn without_leading_slashes(s: Seq<char>) -> Seq<char>
    decreases s.len(),
{
    if s.len() > 0 && s[0] == '/' {
        without_leading_slashes(s.drop_first())
    } else {
        s
    }
}

/// Serves the files under a root directory.
#[derive(Debug)]
pub struct StaticFiles {
    root: String,
}

impl StaticFiles {
    /// The root directory, as given.
    pub closed spec fn root_view(self) -> Seq<char> {
        self.root@
    }

    /// A handler for the files under `root`.
    pub fn new(root: &str) -> (r: Self)
        ensures
            r.root_view() == root@,
    {
        StaticFiles { root: root.to_owned() }
    }

    /// The root directory.
    pub fn root(&self) -> (r: &str)
        ensures
            r@ == self.root_view(),
    {
        self.root.as_str()
    }

    /// The path of the requested file relative to the root: the request's
    /// path without its leading `/` characters.
    pub fn relative_path(&self, request: &Request) -> (r: String)
        ensures
            r@ == without_leading_slashes(request.uri@),
    {
        let uri = request.uri.as_str();
        let n = uri.unicode_len();
        let mut i: usize = 0;
        proof {
            assert(uri@.skip(0) =~= uri@);
        }
        while i < n && uri.get_char(i) == '/'
            invariant
                n == uri@.len(),
                i <= n,
                without_leading_slashes(uri@.skip(i as int)) == without_leading_slashes(uri@),
            decreases n - i,
        {
            proof {
                assert(uri@.skip(i as int).drop_first() =~= uri@.skip(i + 1));
            }
            i += 1;
        }
        uri.substring_char(i, n).to_owned()
    }
}

} // verus!
