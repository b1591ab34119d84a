use vstd::prelude::*;

use std::sync::Arc;

verus! {

/// A plain HTTP server that serves each connection with a service made by
/// its factory.
pub struct HttpServer<F> {
    service_factory: Arc<F>,
}

impl<F> HttpServer<F> {
    pub fn new(service_factory: F) -> (r: Self)
        ensures
            *r.factory() == service_factory,
    {
        HttpServer { service_factory: Arc::new(service_factory) }
    }

    pub closed spec fn factory(&self) -> &F {
        &*self.service_factory
    }

    /// The factory that makes a service for each connection.
    pub fn service_factory(&self) -> (r: &Arc<F>)
        ensures
            **r == *self.factory(),
    {
        &self.service_factory
    }
}

} // verus!
