//! The configuration shape: three endpoints. Loading them from files and
//! the environment happens outside the library.

use vstd::prelude::*;

verus! {

/// The upstream sync-protocol endpoint.
pub struct Meteor {
    pub url: String,
}

/// The database endpoint.
pub struct Mongo {
    pub url: String,
}

/// The listen address.
pub struct Router {
    pub url: String,
}

/// The three endpoints the proxy needs.
pub struct Settings {
    pub meteor: Meteor,
    pub mongo: Mongo,
    pub router: Router,
}

impl Settings {
    /// Bundles the three endpoints.
    pub fn new(meteor_url: String, mongo_url: String, router_url: String) -> (r: Settings)
        ensures
            r.meteor.url == meteor_url,
            r.mongo.url == mongo_url,
            r.router.url == router_url,
    {
        Settings {
            meteor: Meteor { url: meteor_url },
            mongo: Mongo { url: mongo_url },
            router: Router { url: router_url },
        }
    }
}

} // verus!
