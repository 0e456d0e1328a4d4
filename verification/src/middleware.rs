//! Middleware chains.
//!
//! A request runs through an ordered chain of middleware stages wrapped
//! around the matched handler, onion style: the first stage's
//! pre-continuation code runs first and its post-continuation code runs
//! last.  The chain of one request is the global stages followed by the
//! matched scope's stages, so global stages wrap outward.
//!
//! The chain is represented as the two stage lists plus an
//! index-advancing cursor; the caller that owns the actual stage values
//! asks the cursor what comes next — the stage at the cursor's
//! position, paired with the cursor for everything after it, or the
//! terminal handler once the stages are exhausted.  Invoking the stages
//! (which may suspend) is the caller's business; which stage runs next,
//! and in which order, is decided here.

use vstd::prelude::*;
use vstd::string::StringExecFns;

verus! {

/// The chain of one request: the global stages followed by the scope's.
pub open spec fn spec_combined<M>(global: Seq<M>, scope: Seq<M>) -> Seq<M> {
    global + scope
}

/// A position in a middleware chain: the stages before `pos` have been
/// entered already.
pub struct ChainCursor {
    /// How many stages have been entered.
    pub pos: usize,
}

/// What a cursor says to run next: one middleware stage (with the
/// cursor standing for everything after it), or the terminal handler.
pub enum ChainStep<'a, M> {
    /// Enter this stage, handing it the continuation cursor.
    Stage(&'a M, ChainCursor),
    /// All stages are entered: run the matched handler.
    Terminal,
}

impl ChainCursor {
    /// The cursor at the head of a chain: no stage entered yet.
    pub fn new() -> (r: Self)
        ensures
            r.pos == 0,
    {
        ChainCursor { pos: 0 }
    }

    /// The next thing to run in the chain `global ++ scope`: the stage
    /// at this cursor's position together with the advanced cursor, or
    /// the terminal handler when every stage has been entered.
    pub fn step<'a, M>(self, global: &'a Vec<M>, scope: &'a Vec<M>) -> (r: ChainStep<'a, M>)
        requires
            global@.len() + scope@.len() <= usize::MAX,
        ensures
            self.pos < global@.len() + scope@.len() ==> (r matches ChainStep::Stage(m, c) && *m
                == spec_combined(global@, scope@)[self.pos as int] && c.pos == self.pos + 1),
            self.pos >= global@.len() + scope@.len() ==> r is Terminal,
    {
        if self.pos < global.len() {
            ChainStep::Stage(&global[self.pos], ChainCursor { pos: self.pos + 1 })
        } else if self.pos - global.len() < scope.len() {
            ChainStep::Stage(&scope[self.pos - global.len()], ChainCursor { pos: self.pos + 1 })
        } else {
            ChainStep::Terminal
        }
    }
}

/// Configuration data of a CORS middleware stage: the three response
/// header values it adds.  Entering the stage and stamping the headers
/// onto the response happens where responses are built.
pub struct Cors {
    /// Value of the `Access-Control-Allow-Origin` header.
    pub allow_origin: String,
    /// Value of the `Access-Control-Allow-Methods` header.
    pub allow_methods: String,
    /// Value of the `Access-Control-Allow-Headers` header.
    pub allow_headers: String,
}

impl Cors {
    /// The permissive default: any origin, the standard methods, and
    /// the content-type and authorization headers.
    pub fn new() -> (r: Self)
        ensures
            r.allow_origin@ == "*"@,
            r.allow_methods@ == "GET, POST, PUT, DELETE, OPTIONS"@,
            r.allow_headers@ == "Content-Type, Authorization"@,
    {
        Cors {
            allow_origin: String::from_str("*"),
            allow_methods: String::from_str("GET, POST, PUT, DELETE, OPTIONS"),
            allow_headers: String::from_str("Content-Type, Authorization"),
        }
    }

    /// Replaces the allowed origin.
    pub fn allow_origin(self, origin: &str) -> (r: Self)
        ensures
            r.allow_origin@ == origin@,
            r.allow_methods@ == self.allow_methods@,
            r.allow_headers@ == self.allow_headers@,
    {
        Cors { allow_origin: String::from_str(origin), ..self }
    }

    /// Replaces the allowed methods.
    pub fn allow_methods(self, methods: &str) -> (r: Self)
        ensures
            r.allow_methods@ == methods@,
            r.allow_origin@ == self.allow_origin@,
            r.allow_headers@ == self.allow_headers@,
    {
        Cors { allow_methods: String::from_str(methods), ..self }
    }

    /// Replaces the allowed headers.
    pub fn allow_headers(self, headers: &str) -> (r: Self)
        ensures
            r.allow_headers@ == headers@,
            r.allow_origin@ == self.allow_origin@,
            r.allow_methods@ == self.allow_methods@,
    {
        Cors { allow_headers: String::from_str(headers), ..self }
    }
}

/// Marker for the access-logging middleware stage: it logs the method,
/// path, status and elapsed time of each request on the way out.
/// Logging itself is I/O and happens where the stages are invoked.
pub struct AccessLog;

} // verus!
