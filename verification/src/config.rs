//! The route table: an ordered, immutable list of context-prefix rules that
//! sends each request path to a backend target.

use vstd::prelude::*;
use crate::bytes_util::{is_prefix_of, matches_at};

verus! {

/// One routing rule: requests whose path starts with `context` go to the
/// backend named by `target`.
pub struct Route {
    pub name: Vec<u8>,
    pub context: Vec<u8>,
    pub target: Vec<u8>,
}

/// The loaded configuration: the listen address and the route table, in
/// configured order.
pub struct Config {
    pub listen_addr: Vec<u8>,
    pub routes: Vec<Route>,
}

/// The first route whose context is a prefix of `path`, in table order;
/// first match wins, not the longest or the most specific one.
pub open spec fn find_route_spec(rs: Seq<Route>, path: Seq<u8>) -> Option<Route>
    decreases rs.len(),
{
    if rs.len() == 0 {
        None
    } else if is_prefix_of(rs[0].context@, path) {
        Some(rs[0])
    } else {
        find_route_spec(rs.skip(1), path)
    }
}

impl Config {
    /// The first configured route whose context is a prefix of `path`, or
    /// none: an unmatched path is a normal outcome, distinct from any
    /// transport error.
    pub fn find_route(&self, path: &[u8]) -> (r: Option<&Route>)
        ensures
            match r {
                Some(rt) => find_route_spec(self.routes@, path@) == Some(*rt),
                None => find_route_spec(self.routes@, path@) is None,
            },
    {
        let n = self.routes.len();
        let mut i: usize = 0;
        proof {
            assert(self.routes@.skip(0) =~= self.routes@);
        }
        while i < n
            invariant
                i <= n,
                n == self.routes@.len(),
                find_route_spec(self.routes@, path@) == find_route_spec(
                    self.routes@.skip(i as int),
                    path@,
                ),
            decreases n - i,
        {
            let rt = &self.routes[i];
            let matched = matches_at(path, 0, rt.context.as_slice());
            proof {
                assert(self.routes@.skip(i as int)[0] == self.routes@[i as int]);
                if matched {
                    assert(path@.take(rt.context@.len() as int) =~= path@.subrange(
                        0,
                        rt.context@.len() as int,
                    ));
                } else if is_prefix_of(rt.context@, path@) {
                    assert(path@.subrange(0, rt.context@.len() as int) =~= path@.take(
                        rt.context@.len() as int,
                    ));
                    assert(false);
                }
            }
            if matched {
                return Some(rt);
            }
            proof {
                assert(self.routes@.skip(i as int).skip(1) =~= self.routes@.skip(i + 1));
            }
            i += 1;
        }
        proof {
            assert(self.routes@.skip(n as int) =~= Seq::<Route>::empty());
        }
        None
    }
}

} // verus!
