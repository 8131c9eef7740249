//! Gateways: endpoints with model routing by prefix and headers of their own.
use vstd::prelude::*;

use crate::provider::ModelCapabilities;
use crate::text;

verus! {

/// How a gateway is reached.
#[derive(Debug, Clone, PartialEq, Eq)]
pub struct GatewayConfig {
    pub id: String,
    pub base_url: String,
    pub api_key: Option<String>,
    /// Headers sent with every request.
    pub extra_headers: Vec<(String, String)>,
    /// Prefixes of model names, each with the model that stands for it.
    pub route_prefixes: Vec<(String, String)>,
    pub default_caps: ModelCapabilities,
}

impl GatewayConfig {
    /// The gateway of OpenRouter.
    pub fn openrouter(api_key: Option<String>) -> (r: Self)
        ensures
            r.id@ == "openrouter"@,
            r.base_url@ == "https://openrouter.ai/api/v1"@,
            r.api_key == api_key,
            r.extra_headers@.len() == 0,
            r.route_prefixes@.len() == 0,
            r.default_caps == (ModelCapabilities {
                context: 128000,
                max_output: 16384,
                tools: true,
                parallel_tools: true,
                thinking: false,
                vision: true,
                json_schema: true,
                streaming: true,
                embeddings: false,
                reasoning: false,
            }),
    {
        GatewayConfig {
            id: "openrouter".to_owned(),
            base_url: "https://openrouter.ai/api/v1".to_owned(),
            api_key,
            extra_headers: Vec::new(),
            route_prefixes: Vec::new(),
            default_caps: ModelCapabilities {
                context: 128000,
                max_output: 16384,
                tools: true,
                parallel_tools: true,
                thinking: false,
                vision: true,
                json_schema: true,
                streaming: true,
                embeddings: false,
                reasoning: false,
            },
        }
    }

    /// Whether the gateway adds nothing: a plain provider does.
    pub fn is_plain(&self) -> (r: bool)
        ensures
            r == (self.extra_headers@.len() == 0 && self.route_prefixes@.len() == 0),
    {
        self.extra_headers.len() == 0 && self.route_prefixes.len() == 0
    }

    /// The model that a request is sent for: the target of the first prefix that
    /// the name begins with, or the name itself.
    pub fn route(&self, model: &str) -> (r: String)
        ensures
            r@ == routed(self.route_prefixes@, model@),
    {
        let name: Vec<char> = text::chars_of(model);
        let mut i: usize = 0;
        proof {
            assert(self.route_prefixes@.skip(0) =~= self.route_prefixes@);
        }
        while i < self.route_prefixes.len()
            invariant
                i <= self.route_prefixes.len(),
                name@ == model@,
                routed(self.route_prefixes@, model@) == routed(
                    self.route_prefixes@.skip(i as int),
                    model@,
                ),
            decreases self.route_prefixes.len() - i,
        {
            if text::starts_with(name.as_slice(), self.route_prefixes[i].0.as_str()) {
                return self.route_prefixes[i].1.as_str().to_owned();
            }
            proof {
                assert(self.route_prefixes@.skip(i as int).skip(1) =~= self.route_prefixes@.skip(
                    i as int + 1,
                ));
            }
            i = i + 1;
        }
        model.to_owned()
    }

    /// What a model can do, from what the provider behind the gateway says: where
    /// it knows no context, the gateway's own figures count.
    pub fn capabilities(&self, inner: ModelCapabilities) -> (r: ModelCapabilities)
        ensures
            r == if inner.context == 0 {
                self.default_caps
            } else {
                inner
            },
    {
        if inner.context == 0 {
            self.default_caps
        } else {
            inner
        }
    }

    /// Whether a request carries headers of the gateway.
    pub fn has_extra_headers(&self) -> (r: bool)
        ensures
            r == (self.extra_headers@.len() > 0),
    {
        self.extra_headers.len() > 0
    }

    /// Where a request with headers of the gateway is sent.
    pub fn completions_url(&self) -> (r: String)
        ensures
            r@ == self.base_url@ + "/chat/completions"@,
    {
        text::cat2(self.base_url.as_str(), "/chat/completions")
    }
}

/// The target of the first prefix that `model` begins with, or `model` itself.
pub open spec fn routed(routes: Seq<(String, String)>, model: Seq<char>) -> Seq<char>
    decreases routes.len(),
{
    if routes.len() == 0 {
        model
    } else if text::starts(model, routes[0].0@) {
        routes[0].1@
    } else {
        routed(routes.skip(1), model)
    }
}

/// A model that no prefix matches is sent under its own name.
pub proof fn law_unmatched_models_keep_their_name(routes: Seq<(String, String)>, model: Seq<char>)
    requires
        forall|i: int|
            0 <= i < routes.len() ==> !text::starts(model, (#[trigger] routes[i]).0@),
    ensures
        routed(routes, model) == model,
    decreases routes.len(),
{
    if routes.len() > 0 {
        assert(!text::starts(model, routes[0].0@));
        assert forall|i: int| 0 <= i < routes.skip(1).len() implies !text::starts(
            model,
            (#[trigger] routes.skip(1)[i]).0@,
        ) by {
            assert(routes.skip(1)[i] == routes[i + 1]);
        }
        law_unmatched_models_keep_their_name(routes.skip(1), model);
    }
}

/// The first matching prefix decides, whatever follows it.
pub proof fn law_the_first_prefix_decides(
    routes: Seq<(String, String)>,
    model: Seq<char>,
    n: int,
)
    requires
        0 <= n < routes.len(),
        text::starts(model, routes[n].0@),
        forall|i: int| 0 <= i < n ==> !text::starts(model, (#[trigger] routes[i]).0@),
    ensures
        routed(routes, model) == routes[n].1@,
    decreases n,
{
    if n > 0 {
        assert(!text::starts(model, routes[0].0@));
        assert forall|i: int| 0 <= i < n - 1 implies !text::starts(
            model,
            (#[trigger] routes.skip(1)[i]).0@,
        ) by {
            assert(routes.skip(1)[i] == routes[i + 1]);
        }
        law_the_first_prefix_decides(routes.skip(1), model, n - 1);
    }
}

} // verus!
