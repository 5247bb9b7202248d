//! The suggestion engine: instant suggestions, stub refinement, ranking, the
//! result cache, the context history, and the messages a request produces.
use vstd::prelude::*;

use crate::config::EngineConfig;
use crate::ipc::protocol::{CompleteRequest, EngineMessage, InstantResponse, RefinedResponse};
use crate::text::views;

pub mod cache;
pub mod context;
pub mod instant;
pub mod llm;
pub mod rank;

use instant::{instant_suggestions, InstantEngine};
use llm::{refined_suggestions, ModelInfo, StubLlm};

verus! {

/// The name under which the stub model reports its suggestions.
pub open spec fn stub_model_name() -> Seq<char> {
    seq!['s', 't', 'u', 'b', '-', 'm', 'o', 'd', 'e', 'l']
}

/// `m` answers `request` at once: the instant suggestions for its prefix,
/// valid for the configured deadline.
pub open spec fn is_instant_answer(m: EngineMessage, config: EngineConfig, request: CompleteRequest) -> bool {
    &&& m is Instant
    &&& m->Instant_0.cursor_id@ == request.cursor_id@
    &&& views(m->Instant_0.candidates@) == instant_suggestions(
        request.prefix@,
        config.max_candidates as nat,
    )
    &&& m->Instant_0.expires_in_ms == config.instant_deadline_ms
}

/// `m` answers `request` after the refinement: the stub model's suggestions
/// for its prefix, reported with the configured delay.
pub open spec fn is_refined_answer(m: EngineMessage, config: EngineConfig, request: CompleteRequest) -> bool {
    &&& m is Refined
    &&& m->Refined_0.cursor_id@ == request.cursor_id@
    &&& views(m->Refined_0.candidates@) == refined_suggestions(
        request.prefix@,
        config.max_candidates as nat,
    )
    &&& m->Refined_0.model_info.name@ == stub_model_name()
    &&& m->Refined_0.model_info.latency_ms == config.refined_delay_ms
}

/// The decisions of the engine: which messages a request produces.
pub struct EngineCore {
    config: EngineConfig,
    instant: InstantEngine,
    llm: StubLlm,
}

impl EngineCore {
    /// The configuration.
    pub closed spec fn spec_config(&self) -> EngineConfig {
        self.config
    }

    /// The instant engine holds the configured number of suggestions.
    #[verifier::type_invariant]
    spec fn wf(&self) -> bool {
        self.instant.max_candidates() == self.config.max_candidates
    }

    /// An engine with the given configuration.
    pub fn new(config: EngineConfig) -> (r: Self)
        ensures
            r.spec_config() == config,
    {
        Self { config, instant: InstantEngine::new(config.max_candidates), llm: StubLlm::new() }
    }

    /// The configuration.
    pub fn config(&self) -> (r: EngineConfig)
        ensures
            r == self.spec_config(),
    {
        self.config
    }

    /// The message that answers `request` at once.
    pub fn instant_message(&self, request: &CompleteRequest) -> (m: EngineMessage)
        ensures
            is_instant_answer(m, self.spec_config(), *request),
    {
        proof {
            use_type_invariant(self);
        }
        let candidates = self.instant.suggest(request);
        EngineMessage::Instant(
            InstantResponse {
                cursor_id: request.cursor_id.clone(),
                candidates,
                expires_in_ms: self.config.instant_deadline_ms,
            },
        )
    }

    /// The message that answers `request` once the refinement delay is over.
    pub fn refined_message(&self, request: &CompleteRequest) -> (m: EngineMessage)
        ensures
            is_refined_answer(m, self.spec_config(), *request),
    {
        let candidates = self.llm.refine(request.prefix.as_str(), self.config.max_candidates);
        let name = "stub-model".to_owned();
        proof {
            reveal_strlit("stub-model");
            assert(name@ =~= stub_model_name());
        }
        EngineMessage::Refined(
            RefinedResponse {
                cursor_id: request.cursor_id.clone(),
                candidates,
                model_info: ModelInfo { name, latency_ms: self.config.refined_delay_ms },
            },
        )
    }

    /// The message that tells connections to stop.
    pub fn shutdown_message() -> (m: EngineMessage)
        ensures
            m is Shutdown,
    {
        EngineMessage::Shutdown
    }
}

} // verus!
